//! What holds of the engine as a whole: what the clock does, what a step leaves alone, and
//! how many plays, turns and events there can be.

use crate::clock::{earlier, kept_timelines, Freed};
use crate::follow::duck_nodes;
use crate::json::Tree;
use crate::load::load_remarks;
use crate::model::{Layer, Retrigger, Show, Timeline, FORMAT};
use crate::num::{at_most, equal, less, num, Num};
use crate::play::{entered, layer_begins, media_paths, tree_begins, without_oldest, Begin, Wanted};
use crate::sites::SiteKey;
use crate::state::{OwnerKey, Play, Problem, Running, State, Turn, MAX_PENDING_EVENTS, MAX_SUBSTEPS};
use crate::survey::Sought;
use crate::tree::{nodes, rooted, Root};
use vstd::prelude::*;

verus! {

/// Nothing a host provides has changed: the show, the variables, every registered asset, the
/// seed, and what was found at load.
pub open spec fn host_kept(a: State, b: State) -> bool {
    &&& b.show == a.show
    &&& b.variables == a.variables
    &&& b.images == a.images
    &&& b.vectors == a.vectors
    &&& b.fonts == a.fonts
    &&& b.outline_fonts == a.outline_fonts
    &&& b.faces == a.faces
    &&& b.sounds == a.sounds
    &&& b.videos == a.videos
    &&& b.revision == a.revision
    &&& b.rasters == a.rasters
    &&& b.seed == a.seed
    &&& b.transition_sites == a.transition_sites
    &&& b.debounce_sites == a.debounce_sites
    &&& b.reel_sites == a.reel_sites
    &&& b.load_warnings == a.load_warnings
}

/// Neither the host's side nor the clock nor the events have changed.
pub open spec fn quiet(a: State, b: State) -> bool {
    host_kept(a, b) && b.time == a.time && b.events == a.events
}

/// No play has changed.
pub open spec fn mute(a: State, b: State) -> bool {
    b.sounding == a.sounding && b.next_voice == a.next_voice
}

proof fn lemma_started_quiet(s: State, root: Root, path: Seq<usize>, asked: Option<Seq<char>>, at: Num)
    ensures
        quiet(s, s.started(root, path, asked, at)),
        s.started(root, path, asked, at).active_scene == s.active_scene,
{
}

proof fn lemma_autoplayed_quiet(s: State, root: Root, paths: Seq<Seq<usize>>, n: nat)
    ensures
        quiet(s, s.autoplayed(root, paths, n)),
        s.autoplayed(root, paths, n).active_scene == s.active_scene,
    decreases n,
{
    if n > 0 && n <= paths.len() {
        lemma_autoplayed_quiet(s, root, paths, (n - 1) as nat);
        let before = s.autoplayed(root, paths, (n - 1) as nat);
        lemma_started_quiet(before, root, paths[n - 1], None, before.time);
    }
}

proof fn lemma_play_autoplay_quiet(s: State, root: Root)
    ensures
        quiet(s, s.play_autoplay(root)),
        s.play_autoplay(root).active_scene == s.active_scene,
{
    if s.show is Some {
        let paths = media_paths(s.show->0, root);
        lemma_autoplayed_quiet(s, root, paths, paths.len());
    }
}

pub(crate) proof fn lemma_begun_all_quiet(s: State, list: Seq<Begin>, at: Num, n: nat)
    ensures
        quiet(s, s.begun_all(list, at, n)),
        mute(s, s.begun_all(list, at, n)),
        s.begun_all(list, at, n).active_scene == s.active_scene,
    decreases n,
{
    if n > 0 && n <= list.len() {
        lemma_begun_all_quiet(s, list, at, (n - 1) as nat);
    }
}

pub(crate) proof fn lemma_start_matching_quiet(s: State, root: Option<Root>, at: Num, want: Wanted)
    ensures
        quiet(s, s.start_matching(root, at, want)),
        mute(s, s.start_matching(root, at, want)),
        s.start_matching(root, at, want).active_scene == s.active_scene,
{
    if s.show is Some {
        let list = s.matching(s.show->0, root, want);
        lemma_begun_all_quiet(s, list, at, list.len());
    }
}

pub(crate) proof fn lemma_enter_scene_quiet(s: State, scene: usize)
    ensures
        quiet(s, s.enter_scene(scene)),
        s.enter_scene(scene).active_scene == Some(scene),
{
    let there = State { active_scene: Some(scene), ..s.without_scene() };
    lemma_start_matching_quiet(there, Some(Root::Scene(scene)), s.time, Wanted::Autoplay);
    lemma_play_autoplay_quiet(
        there.start_matching(Some(Root::Scene(scene)), s.time, Wanted::Autoplay),
        Root::Scene(scene),
    );
}

proof fn lemma_cued_all_quiet(
    s: State,
    root: Root,
    paths: Seq<Seq<usize>>,
    name: Seq<char>,
    at: Num,
    n: nat,
)
    ensures
        quiet(s, s.cued_all(root, paths, name, at, n)),
    decreases n,
{
    if n > 0 && n <= paths.len() {
        lemma_cued_all_quiet(s, root, paths, name, at, (n - 1) as nat);
    }
}

pub(crate) proof fn lemma_cued_tree_quiet(s: State, root: Root, name: Seq<char>, at: Num)
    ensures
        quiet(s, s.cued_tree(root, name, at)),
{
    if s.show is Some {
        let paths = media_paths(s.show->0, root);
        lemma_cued_all_quiet(s, root, paths, name, at, paths.len());
    }
}

/// Firing a trigger moves neither the clock nor anything the host provides, and is not
/// reported as an event.
pub proof fn lemma_trigger_quiet(s: State, name: Seq<char>, at: Num)
    ensures
        quiet(s, s.trigger_at(name, at)),
{
    reveal(State::trigger_at);
    let scene = match s.show {
        Some(show) => entered(show, name),
        None => None,
    };
    let there = match scene {
        Some(i) => s.enter_scene(i as usize),
        None => s,
    };
    if scene is Some {
        lemma_enter_scene_quiet(s, scene->0 as usize);
    }
    lemma_start_matching_quiet(there, None, at, Wanted::Trigger(name));
    let set = there.start_matching(None, at, Wanted::Trigger(name)).set_spinning(name);
    lemma_cued_tree_quiet(set, Root::Show, name, at);
    let own = set.cued_tree(Root::Show, name, at);
    if set.active_scene is Some {
        lemma_cued_tree_quiet(own, Root::Scene(set.active_scene->0), name, at);
    }
}

pub(crate) proof fn lemma_ducks_quiet(s: State, show: Show, root: Root, list: Seq<(Seq<usize>, Layer)>, n: nat)
    ensures
        quiet(s, s.ducks_noted(show, root, list, n)),
        mute(s, s.ducks_noted(show, root, list, n)),
    decreases n,
{
    if n > 0 && n <= list.len() {
        lemma_ducks_quiet(s, show, root, list, (n - 1) as nat);
    }
}

pub(crate) proof fn lemma_follow_ducks_quiet(s: State)
    ensures
        quiet(s, s.follow_ducks()),
        mute(s, s.follow_ducks()),
{
    reveal(State::follow_ducks);
    if s.show is Some {
        let show = s.show->0;
        let list = duck_nodes(show, Root::Show);
        lemma_ducks_quiet(s, show, Root::Show, list, list.len());
        if s.active_scene is Some {
            let root = Root::Scene(s.active_scene->0);
            let more = duck_nodes(show, root);
            lemma_ducks_quiet(s.tree_ducks_noted(show, Root::Show), show, root, more, more.len());
        }
    }
}

pub(crate) proof fn lemma_debounced_quiet(s: State, show: Show, to: Num, n: nat)
    ensures
        quiet(s, s.debounced_through(show, to, n)),
        mute(s, s.debounced_through(show, to, n)),
    decreases n,
{
    if n > 0 && n <= s.debounce_sites.len() {
        lemma_debounced_quiet(s, show, to, (n - 1) as nat);
    }
}

pub(crate) proof fn lemma_stopped_quiet(s: State, list: Seq<SiteKey>, n: nat)
    ensures
        quiet(s, s.stopped_all(list, n)),
        mute(s, s.stopped_all(list, n)),
    decreases n,
{
    if n > 0 && n <= list.len() {
        lemma_stopped_quiet(s, list, (n - 1) as nat);
    }
}

pub(crate) proof fn lemma_started_all_quiet(s: State, show: Show, list: Seq<SiteKey>, n: nat)
    ensures
        quiet(s, s.started_all(show, list, n)),
        mute(s, s.started_all(show, list, n)),
    decreases n,
{
    if n > 0 && n <= list.len() {
        lemma_started_all_quiet(s, show, list, (n - 1) as nat);
    }
}

pub(crate) proof fn lemma_conditions_quiet(s: State)
    ensures
        quiet(s, s.follow_conditions()),
        mute(s, s.follow_conditions()),
{
    reveal(State::follow_conditions);
    if s.show is Some {
        let show = s.show->0;
        let noted = s.note_trees(show, show.scenes@.len() + 1);
        let a = State {
            conditions: crate::follow::put_all(s.conditions, noted.now, noted.now.len()),
            ..s
        };
        lemma_stopped_quiet(a, noted.stops, noted.stops.len());
        let b = a.stopped_all(noted.stops, noted.stops.len());
        lemma_started_all_quiet(b, show, noted.edges, noted.edges.len());
    }
}

pub(crate) proof fn lemma_transitions_quiet(s: State, show: Show, n: nat)
    ensures
        quiet(s, s.transitions_through(show, n)),
        mute(s, s.transitions_through(show, n)),
    decreases n,
{
    if n > 0 && n <= s.transition_sites.len() {
        lemma_transitions_quiet(s, show, (n - 1) as nat);
    }
}

pub(crate) proof fn lemma_reels_quiet(s: State, show: Show, spinning: Seq<SiteKey>, n: nat)
    ensures
        quiet(s, s.reels_through(show, spinning, n)),
        mute(s, s.reels_through(show, spinning, n)),
    decreases n,
{
    if n > 0 && n <= s.reel_sites.len() {
        lemma_reels_quiet(s, show, spinning, (n - 1) as nat);
    }
}

proof fn lemma_repointed_quiet(s: State, n: nat)
    ensures
        quiet(s, s.repointed_plays(n)),
    decreases n,
{
    if n > 0 && n <= s.sounding.len() {
        lemma_repointed_quiet(s, (n - 1) as nat);
    }
}

proof fn lemma_played_all_quiet(s: State, root: Root, paths: Seq<Seq<usize>>, n: nat)
    ensures
        quiet(s, s.played_all(root, paths, n)),
    decreases n,
{
    if n > 0 && n <= paths.len() {
        lemma_played_all_quiet(s, root, paths, (n - 1) as nat);
        let before = s.played_all(root, paths, (n - 1) as nat);
        lemma_started_quiet(before, root, paths[n - 1], None, before.time);
    }
}

pub(crate) proof fn lemma_prepared_quiet(s: State, to: Num)
    ensures
        quiet(s, s.prepared(to)),
{
    reveal(State::prepared);
    reveal(State::settle_debounces);
    reveal(State::follow_transitions);
    reveal(State::follow_reels);
    reveal(State::play_repointed);
    lemma_follow_ducks_quiet(s);
    let a = s.follow_ducks();
    if a.show is Some {
        lemma_debounced_quiet(a, a.show->0, to, a.debounce_sites.len());
    }
    let b = a.settle_debounces(to);
    lemma_conditions_quiet(b);
    let c = b.follow_conditions();
    if c.show is Some {
        lemma_transitions_quiet(c, c.show->0, c.transition_sites.len());
    }
    let d = c.follow_transitions();
    if d.show is Some {
        lemma_reels_quiet(
            State { spinning: Seq::empty(), ..d },
            d.show->0,
            d.spinning,
            d.reel_sites.len(),
        );
    }
    let e = d.follow_reels();
    lemma_repointed_quiet(e, e.sounding.len());
    let f = e.repointed_plays(e.sounding.len());
    if f.show is Some {
        let own = f.repointed_in(f.show->0, Root::Show);
        lemma_played_all_quiet(f, Root::Show, own, own.len());
        if f.active_scene is Some {
            let root = Root::Scene(f.active_scene->0);
            let there = f.repointed_in(f.show->0, root);
            lemma_played_all_quiet(
                f.played_all(Root::Show, own, own.len()),
                root,
                there,
                there.len(),
            );
        }
    }
}

proof fn lemma_turns_quiet(s: State, turns: Seq<Turn>, freed: Seq<Freed>, n: nat)
    ensures
        quiet(s, s.turns_taken(turns, freed, n)),
    decreases n,
{
    if n > 0 && n <= turns.len() {
        lemma_turns_quiet(s, turns, freed, (n - 1) as nat);
    }
}

pub(crate) proof fn lemma_ended_quiet(s: State, show: Show)
    ensures
        quiet(s, s.ended(show)),
{
    reveal(State::ended);
    let rest = State {
        playing: kept_timelines(show, s.time, s.playing, s.playing.len()),
        sounding: s.kept_plays(s.sounding.len()),
        ..s
    };
    let line = rest.line(rest.waiting.len());
    lemma_turns_quiet(
        State { waiting: line.stay, ..rest },
        line.turn,
        s.freed(s.sounding.len()),
        line.turn.len(),
    );
}

proof fn lemma_fired(s: State, fires: Seq<(Seq<char>, Num)>, n: nat)
    ensures
        host_kept(s, s.fired(fires, n)),
        s.fired(fires, n).time == s.time,
        s.events.len() <= MAX_PENDING_EVENTS ==> s.fired(fires, n).events.len()
            <= MAX_PENDING_EVENTS,
    decreases n,
{
    if n > 0 && n <= fires.len() {
        lemma_fired(s, fires, (n - 1) as nat);
        let (name, at) = fires[n - 1];
        lemma_trigger_quiet(s.fired(fires, (n - 1) as nat), name, at);
    }
}

/// A step lands exactly where it was sent, leaves everything the host provides alone, and
/// never keeps more than the allowed number of events.
pub proof fn lemma_step_lands(s: State, to: Num)
    ensures
        s.step(to).time == to,
        host_kept(s, s.step(to)),
        s.events.len() <= MAX_PENDING_EVENTS ==> s.step(to).events.len() <= MAX_PENDING_EVENTS,
{
    reveal(State::step);
    lemma_prepared_quiet(s, to);
    let there = State { time: to, ..s.prepared(to) };
    if there.show is Some {
        let show = there.show->0;
        let fires = there.fires(show);
        lemma_ended_quiet(there, show);
        lemma_fired(there.ended(show), fires, fires.len());
        lemma_follow_ducks_quiet(there.ended(show).fired(fires, fires.len()));
    }
}

proof fn lemma_next_timeline(s: State, show: Show, end: Num, n: nat)
    ensures
        s.next_timeline(show, end, n) == end || less(s.next_timeline(show, end, n), end),
    decreases n,
{
    if n > 0 && n <= s.playing.len() {
        lemma_next_timeline(s, show, end, (n - 1) as nat);
        let first = s.next_timeline(show, end, (n - 1) as nat);
        let now = s.next_timeline(show, end, n);
        lemma_less_chain(now, first, end);
    }
}

pub(crate) proof fn lemma_less_chain(a: Num, b: Num, c: Num)
    ensures
        less(a, b) && less(b, c) ==> less(a, c),
        less(a, b) ==> !at_most(b, a),
{
    reveal(less);
    reveal(equal);
}

pub(crate) proof fn lemma_next_play(s: State, end: Num, n: nat)
    ensures
        s.next_play(end, n) == end || less(s.next_play(end, n), end),
    decreases n,
{
    if n > 0 && n <= s.sounding.len() {
        lemma_next_play(s, end, (n - 1) as nat);
        let first = s.next_play(end, (n - 1) as nat);
        let play = s.sounding[n - 1];
        if s.media_at(play.root, play.path) is Some {
            let media = s.media_at(play.root, play.path)->0;
            let mid = earlier(s.time, first, crate::num::sum_of(play.started, media.wait()));
            lemma_less_chain(mid, first, end);
            lemma_less_chain(s.next_play(end, n), mid, end);
        }
    }
}

/// The next change is `end` itself, or an instant before it.
pub proof fn lemma_next_change(s: State, end: Num)
    ensures
        s.next_change(end) == end || less(s.next_change(end), end),
{
    reveal(State::next_change);
    if s.show is Some {
        let first = s.next_timeline(s.show->0, end, s.playing.len());
        lemma_next_timeline(s, s.show->0, end, s.playing.len());
        lemma_next_play(s, first, s.sounding.len());
        lemma_less_chain(s.next_change(end), first, end);
    }
}

/// Advancing lands exactly on the instant asked for, leaves everything the host provides
/// alone, and never keeps more than the allowed number of events.
pub proof fn lemma_advance_lands(s: State, to: Num)
    requires
        !less(to, s.time),
    ensures
        s.advance_to(to).time == to,
        host_kept(s, s.advance_to(to)),
        s.events.len() <= MAX_PENDING_EVENTS ==> s.advance_to(to).events.len()
            <= MAX_PENDING_EVENTS,
{
    lemma_advanced(s, to, MAX_SUBSTEPS as nat);
}

proof fn lemma_advanced(s: State, end: Num, left: nat)
    ensures
        s.advanced(end, left).time == end,
        host_kept(s, s.advanced(end, left)),
        s.events.len() <= MAX_PENDING_EVENTS ==> s.advanced(end, left).events.len()
            <= MAX_PENDING_EVENTS,
    decreases left,
{
    if left == 0 {
        lemma_step_lands(s, end);
    } else {
        let next = s.next_change(end);
        lemma_step_lands(s, next);
        lemma_next_change(s, end);
        lemma_less_chain(next, end, end);
        let there = s.step(next);
        if !at_most(end, there.time) {
            lemma_advanced(there, end, (left - 1) as nat);
        }
    }
}

/// Going backwards does nothing.
pub proof fn lemma_backwards_does_nothing(s: State, to: Num)
    requires
        less(to, s.time),
    ensures
        s.advance_to(to) == s,
{
}

/// Restarting puts the clock at 0 and every variable at the value the document declares, and
/// leaves registered assets alone.
pub proof fn lemma_restart(s: State)
    requires
        s.show is Some,
    ensures
        s.restart().time == num(0),
        s.restart().variables == s.show->0.variables@,
        s.restart().events == Seq::<Seq<char>>::empty(),
        s.restart().show == s.show,
        s.restart().images == s.images && s.restart().sounds == s.sounds && s.restart().videos
            == s.videos && s.restart().vectors == s.vectors && s.restart().fonts == s.fonts
            && s.restart().outline_fonts == s.outline_fonts && s.restart().faces == s.faces,
        s.restart().seed == s.seed && s.restart().revision == s.revision && s.restart().rasters
            == s.rasters,
        s.restart().load_warnings == s.load_warnings,
        s.restart().active_scene == (if s.show->0.scenes@.len() == 0 {
            None
        } else {
            Some(0usize)
        }),
{
    let show = s.show->0;
    let a = s.rewound(show);
    lemma_start_matching_quiet(a, Some(Root::Show), num(0), Wanted::Autoplay);
    let b = a.start_matching(Some(Root::Show), num(0), Wanted::Autoplay);
    lemma_play_autoplay_quiet(b, Root::Show);
    let c = b.play_autoplay(Root::Show);
    lemma_start_matching_quiet(c, Some(Root::Scene(0)), num(0), Wanted::Autoplay);
    lemma_play_autoplay_quiet(
        c.start_matching(Some(Root::Scene(0)), num(0), Wanted::Autoplay),
        Root::Scene(0),
    );
}

/// What was just played on a layer is among its plays, under a fresh id.
pub proof fn lemma_launched(s: State, root: Root, path: Seq<usize>, asked: Option<Seq<char>>, at: Num)
    ensures
        ({
            let after = s.launched(root, path, asked, at);
            let last = after.sounding.last();
            &&& after.sounding.len() == s.sounding.len() + 1
            &&& last.on(root, path)
            &&& last.started == at
            &&& last.id == after.next_voice
            &&& s.next_voice < u64::MAX ==> after.next_voice == s.next_voice + 1
        }),
{
}

/// While a layer that ignores its trigger plays, the trigger does nothing.
pub proof fn lemma_ignored(s: State, root: Root, path: Seq<usize>, asked: Option<Seq<char>>, at: Num)
    requires
        s.media_at(root, path) is Some,
        s.media_at(root, path)->0.retrigger == Retrigger::Ignore,
        s.busy(root, path),
    ensures
        s.started(root, path, asked, at) == s,
{
}

/// A play that comes sooner than the layer's rest after the last one is dropped.
pub proof fn lemma_rest_drops(s: State, root: Root, path: Seq<usize>, asked: Option<Seq<char>>, at: Num)
    requires
        s.media_at(root, path) is Some,
        s.too_soon(root, path, s.media_at(root, path)->0.rest, at),
    ensures
        s.started(root, path, asked, at) == s,
{
}

proof fn lemma_filter_push<T>(s: Seq<T>, x: T, pred: spec_fn(T) -> bool)
    ensures
        s.push(x).filter(pred) == (if pred(x) {
            s.filter(pred).push(x)
        } else {
            s.filter(pred)
        }),
{
    crate::lists::lemma_filter_step(s.push(x), pred, s.len() as int);
    assert(s.push(x).take(s.len() as int) =~= s);
    assert(s.push(x).take(s.len() as int + 1) =~= s.push(x));
}

proof fn lemma_filter_out(s: Seq<Play>, root: Root, path: Seq<usize>)
    ensures
        s.filter(|p: Play| !p.on(root, path)).filter(|p: Play| p.on(root, path)).len() == 0,
    decreases s.len(),
{
    let off = |p: Play| !p.on(root, path);
    let on = |p: Play| p.on(root, path);
    reveal_with_fuel(Seq::filter, 2);
    if s.len() > 0 {
        lemma_filter_out(s.drop_last(), root, path);
        if off(s.last()) {
            lemma_filter_push(s.drop_last().filter(off), s.last(), on);
        }
    }
}

proof fn lemma_without_oldest(s: Seq<Play>, root: Root, path: Seq<usize>, over: nat)
    requires
        over <= s.filter(|p: Play| p.on(root, path)).len(),
    ensures
        without_oldest(s, root, path, over).filter(|p: Play| p.on(root, path)).len() == s.filter(
            |p: Play| p.on(root, path),
        ).len() - over,
    decreases s.len(),
{
    let on = |p: Play| p.on(root, path);
    if s.len() == 0 {
        reveal_with_fuel(Seq::filter, 1);
    } else {
        let first = seq![s[0]];
        let rest = s.drop_first();
        assert(s =~= first + rest);
        Seq::filter_distributes_over_add(first, rest, on);
        assert(first.filter(on).len() == if on(s[0]) {
            1nat
        } else {
            0nat
        }) by {
            reveal_with_fuel(Seq::filter, 2);
            assert(first.drop_last() =~= Seq::<Play>::empty());
            assert(first.last() == s[0]);
        }
        if over > 0 && s[0].on(root, path) {
            lemma_without_oldest(rest, root, path, (over - 1) as nat);
        } else {
            lemma_without_oldest(rest, root, path, over);
            Seq::filter_distributes_over_add(
                first,
                without_oldest(rest, root, path, over),
                on,
            );
        }
    }
}

/// A layer that restarts has exactly one play after it was asked to play, unless the ask came
/// too soon.
pub proof fn lemma_restart_plays_one(
    s: State,
    root: Root,
    path: Seq<usize>,
    asked: Option<Seq<char>>,
    at: Num,
)
    requires
        s.media_at(root, path) is Some,
        s.media_at(root, path)->0.retrigger == Retrigger::Restart,
        !s.too_soon(root, path, s.media_at(root, path)->0.rest, at),
    ensures
        s.started(root, path, asked, at).plays_on(root, path).len() == 1,
{
    let on = |p: Play| p.on(root, path);
    let off = s.silenced(root, path);
    let after = off.launched(root, path, asked, at);
    lemma_filter_out(s.sounding, root, path);
    lemma_filter_push(off.sounding, after.sounding.last(), on);
    assert(after.sounding =~= off.sounding.push(after.sounding.last()));
}

/// A layer that overlaps never has more plays than its voices.
pub proof fn lemma_overlap_capped(
    s: State,
    root: Root,
    path: Seq<usize>,
    asked: Option<Seq<char>>,
    at: Num,
)
    requires
        s.media_at(root, path) is Some,
        s.media_at(root, path)->0.retrigger == Retrigger::Overlap,
        !s.too_soon(root, path, s.media_at(root, path)->0.rest, at),
    ensures
        ({
            let voices = s.media_at(root, path)->0.voices;
            s.started(root, path, asked, at).plays_on(root, path).len() <= if voices > 1 {
                voices as nat
            } else {
                1
            }
        }),
{
    let on = |p: Play| p.on(root, path);
    let voices: nat = if s.media_at(root, path)->0.voices > 1 {
        s.media_at(root, path)->0.voices as nat
    } else {
        1
    };
    let mine = s.plays_on(root, path).len();
    let over: nat = if mine + 1 > voices {
        (mine + 1 - voices) as nat
    } else {
        0
    };
    lemma_without_oldest(s.sounding, root, path, over);
    let cut = State { sounding: without_oldest(s.sounding, root, path, over), ..s };
    let after = cut.launched(root, path, asked, at);
    lemma_filter_push(cut.sounding, after.sounding.last(), on);
    assert(after.sounding =~= cut.sounding.push(after.sounding.last()));
}

/// A layer that queues never has more turns waiting than its voices.
pub proof fn lemma_queue_capped(
    s: State,
    root: Root,
    path: Seq<usize>,
    asked: Option<Seq<char>>,
    at: Num,
)
    requires
        s.media_at(root, path) is Some,
        s.media_at(root, path)->0.retrigger == Retrigger::Queue,
    ensures
        ({
            let limit: nat = if s.media_at(root, path)->0.voices > 1 {
                s.media_at(root, path)->0.voices as nat
            } else {
                1
            };
            s.turns_on(root, path).len() <= limit ==> s.started(root, path, asked, at).turns_on(
                root,
                path,
            ).len() <= limit
        }),
{
    let on = |t: Turn| t.on(root, path);
    let t = Turn { root, path, asked: s.media_name(root, path) };
    lemma_filter_push(s.waiting, t, on);
}

/// Whether everything that plays belongs to the show's own layers or to one scene.
pub open spec fn only_in(s: State, scene: usize) -> bool {
    &&& forall|i: int|
        0 <= i < s.sounding.len() ==> here((#[trigger] s.sounding[i]).root, scene)
    &&& forall|i: int| 0 <= i < s.waiting.len() ==> here((#[trigger] s.waiting[i]).root, scene)
    &&& forall|i: int|
        0 <= i < s.playing.len() ==> here((#[trigger] s.playing[i]).owner.root(), scene)
}

/// A layer tree that shows while a scene is active.
pub open spec fn here(root: Root, scene: usize) -> bool {
    root == Root::Show || root == Root::Scene(scene)
}

proof fn lemma_filter_all<T>(s: Seq<T>, pred: spec_fn(T) -> bool, keep: spec_fn(T) -> bool)
    requires
        forall|i: int| 0 <= i < s.len() && keep(s[i]) ==> pred(#[trigger] s[i]),
    ensures
        forall|i: int| 0 <= i < s.filter(keep).len() ==> pred(#[trigger] s.filter(keep)[i]),
    decreases s.len(),
{
    reveal_with_fuel(Seq::filter, 2);
    if s.len() > 0 {
        let most = s.drop_last();
        assert forall|i: int| 0 <= i < most.len() && keep(most[i]) implies pred(
            #[trigger] most[i],
        ) by {
            assert(pred(s[i]));
        }
        lemma_filter_all(most, pred, keep);
        let few = most.filter(keep);
        let all = s.filter(keep);
        assert forall|i: int| 0 <= i < all.len() implies pred(#[trigger] all[i]) by {
            if i < few.len() {
                assert(all[i] == few[i]);
            } else {
                assert(all[i] == s[s.len() - 1]);
            }
        }
    }
}

proof fn lemma_layer_begins_here(
    owner: OwnerKey,
    timelines: Seq<Timeline>,
    want: Wanted,
    n: nat,
)
    ensures
        forall|i: int|
            0 <= i < layer_begins(owner, timelines, want, n).len() ==> (
            #[trigger] layer_begins(owner, timelines, want, n)[i]).owner == owner,
    decreases n,
{
    if n > 0 && n <= timelines.len() {
        lemma_layer_begins_here(owner, timelines, want, (n - 1) as nat);
    }
}

proof fn lemma_tree_begins_here(
    root: Root,
    list: Seq<(Seq<usize>, Layer)>,
    want: Wanted,
    n: nat,
)
    ensures
        forall|i: int|
            0 <= i < tree_begins(root, list, want, n).len() ==> (
            #[trigger] tree_begins(root, list, want, n)[i]).owner.root() == root,
    decreases n,
{
    if n > 0 && n <= list.len() {
        lemma_tree_begins_here(root, list, want, (n - 1) as nat);
        let (path, layer) = list[n - 1];
        lemma_layer_begins_here(
            OwnerKey::Layer(root, path),
            layer.timelines@,
            want,
            layer.timelines@.len(),
        );
    }
}

proof fn lemma_begun_all_here(s: State, list: Seq<Begin>, at: Num, n: nat, scene: usize)
    requires
        only_in(s, scene),
        forall|i: int| 0 <= i < list.len() ==> here((#[trigger] list[i]).owner.root(), scene),
    ensures
        only_in(s.begun_all(list, at, n), scene),
    decreases n,
{
    if n > 0 && n <= list.len() {
        lemma_begun_all_here(s, list, at, (n - 1) as nat, scene);
        let before = s.begun_all(list, at, (n - 1) as nat);
        let b = list[n - 1];
        lemma_filter_all(
            before.playing,
            |p: Running| here(p.owner.root(), scene),
            |p: Running| !(p.owner == b.owner && p.timeline == b.timeline),
        );
    }
}

proof fn lemma_without_oldest_here(
    plays: Seq<Play>,
    root: Root,
    path: Seq<usize>,
    over: nat,
    scene: usize,
)
    requires
        forall|i: int| 0 <= i < plays.len() ==> here((#[trigger] plays[i]).root, scene),
    ensures
        forall|i: int|
            0 <= i < without_oldest(plays, root, path, over).len() ==> here(
                (#[trigger] without_oldest(plays, root, path, over)[i]).root,
                scene,
            ),
    decreases plays.len(),
{
    if plays.len() > 0 {
        let rest = plays.drop_first();
        assert forall|i: int| 0 <= i < rest.len() implies here(
            (#[trigger] rest[i]).root,
            scene,
        ) by {
            assert(here(plays[i + 1].root, scene));
        }
        if over > 0 && plays[0].on(root, path) {
            lemma_without_oldest_here(rest, root, path, (over - 1) as nat, scene);
        } else {
            lemma_without_oldest_here(rest, root, path, over, scene);
            assert(here(plays[0].root, scene));
        }
    }
}

proof fn lemma_started_here(
    s: State,
    root: Root,
    path: Seq<usize>,
    asked: Option<Seq<char>>,
    at: Num,
    scene: usize,
)
    requires
        only_in(s, scene),
        here(root, scene),
    ensures
        only_in(s.started(root, path, asked, at), scene),
{
    if s.media_at(root, path) is Some {
        let media = s.media_at(root, path)->0;
        let voices: nat = if media.voices > 1 {
            media.voices as nat
        } else {
            1
        };
        let mine = s.plays_on(root, path).len();
        let over: nat = if mine + 1 > voices {
            (mine + 1 - voices) as nat
        } else {
            0
        };
        lemma_filter_all(
            s.sounding,
            |p: Play| here(p.root, scene),
            |p: Play| !p.on(root, path),
        );
        lemma_without_oldest_here(s.sounding, root, path, over, scene);
    }
}

proof fn lemma_autoplayed_here(s: State, root: Root, paths: Seq<Seq<usize>>, n: nat, scene: usize)
    requires
        only_in(s, scene),
        here(root, scene),
    ensures
        only_in(s.autoplayed(root, paths, n), scene),
    decreases n,
{
    if n > 0 && n <= paths.len() {
        lemma_autoplayed_here(s, root, paths, (n - 1) as nat, scene);
        let before = s.autoplayed(root, paths, (n - 1) as nat);
        lemma_started_here(before, root, paths[n - 1], None, before.time, scene);
    }
}

/// A scene that is entered is the active one, and of every other one nothing plays on: no
/// timeline, no sound or video, and nothing that waits its turn.
pub proof fn lemma_scene_entered(s: State, scene: usize)
    ensures
        s.enter_scene(scene).active_scene == Some(scene),
        quiet(s, s.enter_scene(scene)),
        only_in(s.enter_scene(scene), scene),
{
    lemma_enter_scene_quiet(s, scene);
    let there = State { active_scene: Some(scene), ..s.without_scene() };
    let root = Root::Scene(scene);
    lemma_filter_all(
        s.sounding,
        |p: Play| here(p.root, scene),
        |p: Play| p.root == Root::Show,
    );
    lemma_filter_all(
        s.waiting,
        |t: Turn| here(t.root, scene),
        |t: Turn| t.root == Root::Show,
    );
    lemma_filter_all(
        s.playing,
        |p: Running| here(p.owner.root(), scene),
        |p: Running| p.owner.root() == Root::Show,
    );
    assert(only_in(there, scene)) by {
        assert forall|i: int| 0 <= i < there.sounding.len() implies here(
            (#[trigger] there.sounding[i]).root,
            scene,
        ) by {
            assert((|p: Play| here(p.root, scene))(there.sounding[i]));
        }
        assert forall|i: int| 0 <= i < there.waiting.len() implies here(
            (#[trigger] there.waiting[i]).root,
            scene,
        ) by {
            assert((|t: Turn| here(t.root, scene))(there.waiting[i]));
        }
        assert forall|i: int| 0 <= i < there.playing.len() implies here(
            (#[trigger] there.playing[i]).owner.root(),
            scene,
        ) by {
            assert((|p: Running| here(p.owner.root(), scene))(there.playing[i]));
        }
    }
    let set = there.start_matching(Some(root), s.time, Wanted::Autoplay);
    lemma_start_matching_quiet(there, Some(root), s.time, Wanted::Autoplay);
    if there.show is Some {
        let show = there.show->0;
        let list = there.matching(show, Some(root), Wanted::Autoplay);
        if rooted(show, root) is Some {
            let all = nodes(rooted(show, root)->0, Seq::empty());
            lemma_tree_begins_here(root, all, Wanted::Autoplay, all.len());
        }
        lemma_begun_all_here(there, list, s.time, list.len(), scene);
        let paths = media_paths(show, root);
        lemma_autoplayed_here(set, root, paths, paths.len(), scene);
    }
}

/// A show that is loaded starts from its beginning, over the assets the host registered
/// before; what those assets are, and the ids given out to plays, go on as they were.
pub proof fn lemma_loaded(
    s: State,
    raw: Result<Tree, Seq<char>>,
    show: Result<Show, Seq<char>>,
    kept: Result<Tree, Seq<char>>,
)
    ensures
        s.load(raw, show, kept) matches Ok(next) ==> {
            &&& next.show == Some(show->Ok_0)
            &&& next.time == num(0)
            &&& next.variables == show->Ok_0.variables@
            &&& next.events == Seq::<Seq<char>>::empty()
            &&& next.images == s.images && next.vectors == s.vectors
            &&& next.fonts == s.fonts && next.outline_fonts == s.outline_fonts
            &&& next.sounds == s.sounds && next.videos == s.videos
            &&& next.seed == s.seed && next.revision == s.revision
            &&& next.rasters.len() == 0
        },
{
    if s.load(raw, show, kept) is Ok {
        let read = show->Ok_0;
        let warnings = load_remarks(raw, kept, read) + s.artwork_remarks(read);
        let fresh = State {
            show: Some(read),
            faces: Seq::empty(),
            rasters: Seq::empty(),
            load_warnings: warnings,
            transition_sites: Sought::Transitions.show_places(read),
            debounce_sites: Sought::Debounces.show_places(read),
            reel_sites: Sought::Reels.show_places(read),
            ..s
        };
        lemma_restart(fresh);
    }
}

/// A document of a newer format is refused whatever else it says.
pub proof fn lemma_newer_refused(
    s: State,
    tree: Tree,
    show: Result<Show, Seq<char>>,
    kept: Result<Tree, Seq<char>>,
    found: u64,
)
    requires
        tree.whole_member("format"@) == Some(found),
        found > FORMAT,
    ensures
        s.load(Ok(tree), show, kept) == Err::<State, Problem>(
            Problem::UnsupportedFormat(found, FORMAT),
        ),
{
}

} // verus!
