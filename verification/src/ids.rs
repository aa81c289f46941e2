//! No two plays of an engine ever have the same id.

use crate::clock::{kept_timelines, Freed};
use crate::laws::{
    lemma_conditions_quiet, lemma_debounced_quiet, lemma_follow_ducks_quiet, lemma_reels_quiet,
    lemma_start_matching_quiet, lemma_transitions_quiet, mute,
};
use crate::model::{Retrigger, Show};
use crate::num::{at_most, num, Num};
use crate::play::{entered, media_paths, without_oldest, Wanted};
use crate::state::{Play, State, Turn, MAX_SUBSTEPS};
use crate::tree::Root;
use vstd::prelude::*;

verus! {

/// No two plays share an id.
pub open spec fn distinct(plays: Seq<Play>) -> bool {
    forall|i: int, j: int|
        0 <= i < j < plays.len() ==> (#[trigger] plays[i]).id != (#[trigger] plays[j]).id
}

/// Every play has an id of its own, and none beyond the latest one given out.
pub open spec fn known(s: State) -> bool {
    &&& distinct(s.sounding)
    &&& forall|i: int|
        0 <= i < s.sounding.len() ==> (#[trigger] s.sounding[i]).id <= s.next_voice
}

/// Ids are given out in order and never twice: behind a call, a play is one that was there
/// before it, unchanged, or has an id that was not given out before it. There are as many ids
/// as a 64-bit counter has values.
pub open spec fn numbered_on(a: State, b: State) -> bool {
    &&& b.next_voice >= a.next_voice
    &&& b.next_voice < u64::MAX ==> {
        &&& known(a) ==> known(b)
        &&& forall|i: int|
            0 <= i < b.sounding.len() ==> (#[trigger] b.sounding[i]).id > a.next_voice
                || a.sounding.contains(b.sounding[i])
    }
}

proof fn lemma_same(a: State, b: State)
    requires
        mute(a, b),
    ensures
        numbered_on(a, b),
{
    assert forall|i: int| 0 <= i < b.sounding.len() implies a.sounding.contains(
        #[trigger] b.sounding[i],
    ) by {
        assert(a.sounding[i] == b.sounding[i]);
    }
}

proof fn lemma_chain(a: State, b: State, c: State)
    requires
        numbered_on(a, b),
        numbered_on(b, c),
    ensures
        numbered_on(a, c),
{
    if c.next_voice < u64::MAX {
        assert forall|i: int| 0 <= i < c.sounding.len() implies (#[trigger] c.sounding[i]).id
            > a.next_voice || a.sounding.contains(c.sounding[i]) by {
            let p = c.sounding[i];
            if p.id <= b.next_voice {
                let j = choose|j: int| 0 <= j < b.sounding.len() && #[trigger] b.sounding[j] == p;
                assert(b.sounding[j].id > a.next_voice || a.sounding.contains(b.sounding[j]));
            }
        }
    }
}

/// Some of the plays of a list, each at most once.
pub open spec fn thinned(few: Seq<Play>, all: Seq<Play>) -> bool {
    &&& forall|i: int| 0 <= i < few.len() ==> all.contains(#[trigger] few[i])
    &&& distinct(all) ==> distinct(few)
}

proof fn lemma_thinned(a: State, b: State)
    requires
        thinned(b.sounding, a.sounding),
        b.next_voice == a.next_voice,
    ensures
        numbered_on(a, b),
{
    assert forall|i: int| 0 <= i < b.sounding.len() && known(a) implies (#[trigger] b.sounding[i]).id
        <= b.next_voice by {
        let p = b.sounding[i];
        assert(a.sounding.contains(p));
        let j = choose|j: int| 0 <= j < a.sounding.len() && #[trigger] a.sounding[j] == p;
        assert(a.sounding[j].id <= a.next_voice);
    }
}

proof fn lemma_filter_thins(plays: Seq<Play>, pred: spec_fn(Play) -> bool)
    ensures
        thinned(plays.filter(pred), plays),
    decreases plays.len(),
{
    reveal_with_fuel(Seq::filter, 2);
    if plays.len() > 0 {
        let most = plays.drop_last();
        lemma_filter_thins(most, pred);
        let few = most.filter(pred);
        let all = plays.filter(pred);
        assert forall|i: int| 0 <= i < all.len() implies plays.contains(#[trigger] all[i]) by {
            if i < few.len() {
                assert(most.contains(few[i]));
                let j = choose|j: int| 0 <= j < most.len() && #[trigger] most[j] == few[i];
                assert(plays[j] == all[i]);
            } else {
                assert(plays[plays.len() - 1] == all[i]);
            }
        }
        if distinct(plays) {
            lemma_drop_last_distinct(plays);
            assert forall|i: int, j: int| 0 <= i < j < all.len() implies (#[trigger] all[i]).id != (
            #[trigger] all[j]).id by {
                if j == few.len() {
                    assert(most.contains(few[i]));
                    let k = choose|k: int| 0 <= k < most.len() && #[trigger] most[k] == few[i];
                    assert(plays[k].id != plays[plays.len() - 1].id);
                } else {
                    assert(few[i].id != few[j].id);
                }
            }
        }
    }
}

proof fn lemma_drop_last_distinct(plays: Seq<Play>)
    requires
        plays.len() > 0,
        distinct(plays),
    ensures
        distinct(plays.drop_last()),
{
    let most = plays.drop_last();
    assert forall|i: int, j: int| 0 <= i < j < most.len() implies (#[trigger] most[i]).id != (
    #[trigger] most[j]).id by {
        assert(plays[i].id != plays[j].id);
    }
}

proof fn lemma_oldest_thins(plays: Seq<Play>, root: Root, path: Seq<usize>, over: nat)
    ensures
        thinned(without_oldest(plays, root, path, over), plays),
    decreases plays.len(),
{
    if plays.len() > 0 {
        let rest = plays.drop_first();
        let all = without_oldest(plays, root, path, over);
        let gone = over > 0 && plays[0].on(root, path);
        let left = if gone {
            (over - 1) as nat
        } else {
            over
        };
        lemma_oldest_thins(rest, root, path, left);
        let few = without_oldest(rest, root, path, left);
        assert forall|p: Play| rest.contains(p) implies plays.contains(p) by {
            let j = choose|j: int| 0 <= j < rest.len() && #[trigger] rest[j] == p;
            assert(plays[j + 1] == p);
        }
        if distinct(plays) {
            assert forall|i: int, j: int| 0 <= i < j < rest.len() implies (#[trigger] rest[i]).id
                != (#[trigger] rest[j]).id by {
                assert(plays[i + 1].id != plays[j + 1].id);
            }
        }
        if !gone {
            assert(all =~= seq![plays[0]] + few);
            assert forall|i: int| 0 <= i < all.len() implies plays.contains(#[trigger] all[i]) by {
                if i == 0 {
                    assert(plays[0] == all[0]);
                } else {
                    assert(rest.contains(few[i - 1]));
                }
            }
            if distinct(plays) {
                assert forall|i: int, j: int| 0 <= i < j < all.len() implies (#[trigger] all[i]).id
                    != (#[trigger] all[j]).id by {
                    if i == 0 {
                        assert(rest.contains(few[j - 1]));
                        let k = choose|k: int|
                            0 <= k < rest.len() && #[trigger] rest[k] == few[j - 1];
                        assert(plays[0].id != plays[k + 1].id);
                    } else {
                        assert(few[i - 1].id != few[j - 1].id);
                    }
                }
            }
        }
    }
}

proof fn lemma_kept_thins(s: State, n: nat)
    requires
        n <= s.sounding.len(),
    ensures
        thinned(s.kept_plays(n), s.sounding.take(n as int)),
    decreases n,
{
    if n > 0 {
        let before = s.sounding.take(n - 1);
        let now = s.sounding.take(n as int);
        lemma_kept_thins(s, (n - 1) as nat);
        let few = s.kept_plays((n - 1) as nat);
        let all = s.kept_plays(n);
        assert(now.drop_last() =~= before);
        assert forall|p: Play| before.contains(p) implies now.contains(p) by {
            let j = choose|j: int| 0 <= j < before.len() && #[trigger] before[j] == p;
            assert(now[j] == p);
        }
        assert(now[n - 1] == s.sounding[n - 1]);
        assert forall|i: int| 0 <= i < all.len() implies now.contains(#[trigger] all[i]) by {
            if i < few.len() {
                assert(before.contains(few[i]));
            } else {
                assert(now[n - 1] == all[i]);
            }
        }
        if distinct(now) {
            lemma_drop_last_distinct(now);
            assert forall|i: int, j: int| 0 <= i < j < all.len() implies (#[trigger] all[i]).id != (
            #[trigger] all[j]).id by {
                if j == few.len() {
                    assert(before.contains(few[i]));
                    let k = choose|k: int| 0 <= k < before.len() && #[trigger] before[k] == few[i];
                    assert(now[k].id != now[n - 1].id);
                } else {
                    assert(few[i].id != few[j].id);
                }
            }
        }
    }
}

proof fn lemma_launched_numbered(
    s: State,
    root: Root,
    path: Seq<usize>,
    asked: Option<Seq<char>>,
    at: Num,
)
    ensures
        numbered_on(s, s.launched(root, path, asked, at)),
{
    let b = s.launched(root, path, asked, at);
    assert forall|i: int| 0 <= i < b.sounding.len() implies (#[trigger] b.sounding[i]).id
        > s.next_voice || s.sounding.contains(b.sounding[i]) || b.next_voice == u64::MAX by {
        if i < s.sounding.len() {
            assert(s.sounding[i] == b.sounding[i]);
        }
    }
    if known(s) && b.next_voice < u64::MAX {
        assert forall|i: int, j: int| 0 <= i < j < b.sounding.len() implies (
        #[trigger] b.sounding[i]).id != (#[trigger] b.sounding[j]).id by {
            assert(s.sounding[i].id <= s.next_voice);
            if j < s.sounding.len() {
                assert(s.sounding[i].id != s.sounding[j].id);
            }
        }
        assert forall|i: int| 0 <= i < b.sounding.len() implies (#[trigger] b.sounding[i]).id
            <= b.next_voice by {
            if i < s.sounding.len() {
                assert(s.sounding[i].id <= s.next_voice);
            }
        }
    }
}

proof fn lemma_started_numbered(
    s: State,
    root: Root,
    path: Seq<usize>,
    asked: Option<Seq<char>>,
    at: Num,
)
    ensures
        numbered_on(s, s.started(root, path, asked, at)),
{
    let b = s.started(root, path, asked, at);
    lemma_same(s, s);
    lemma_launched_numbered(s, root, path, asked, at);
    if let Some(media) = s.media_at(root, path) {
        let voices: nat = if media.voices > 1 {
            media.voices as nat
        } else {
            1
        };
        match media.retrigger {
            Retrigger::Restart => {
                let quiet = s.silenced(root, path);
                lemma_filter_thins(s.sounding, |p: Play| !p.on(root, path));
                lemma_thinned(s, quiet);
                lemma_launched_numbered(quiet, root, path, asked, at);
                lemma_chain(s, quiet, quiet.launched(root, path, asked, at));
            },
            Retrigger::Overlap => {
                let mine = s.plays_on(root, path).len();
                let over: nat = if mine + 1 > voices {
                    (mine + 1 - voices) as nat
                } else {
                    0
                };
                let room = State {
                    sounding: without_oldest(s.sounding, root, path, over),
                    ..s
                };
                lemma_oldest_thins(s.sounding, root, path, over);
                lemma_thinned(s, room);
                lemma_launched_numbered(room, root, path, asked, at);
                lemma_chain(s, room, room.launched(root, path, asked, at));
            },
            _ => {
                if mute(s, b) {
                    lemma_same(s, b);
                }
            },
        }
    }
}

proof fn lemma_autoplayed_numbered(s: State, root: Root, paths: Seq<Seq<usize>>, n: nat)
    ensures
        numbered_on(s, s.autoplayed(root, paths, n)),
    decreases n,
{
    if n == 0 || n > paths.len() {
        lemma_same(s, s);
    } else {
        let before = s.autoplayed(root, paths, (n - 1) as nat);
        lemma_autoplayed_numbered(s, root, paths, (n - 1) as nat);
        lemma_started_numbered(before, root, paths[n - 1], None, before.time);
        lemma_same(before, before);
        lemma_chain(s, before, s.autoplayed(root, paths, n));
    }
}

proof fn lemma_play_autoplay_numbered(s: State, root: Root)
    ensures
        numbered_on(s, s.play_autoplay(root)),
{
    lemma_same(s, s);
    if s.show is Some {
        let paths = media_paths(s.show->0, root);
        lemma_autoplayed_numbered(s, root, paths, paths.len());
    }
}

proof fn lemma_enter_scene_numbered(s: State, scene: usize)
    ensures
        numbered_on(s, s.enter_scene(scene)),
{
    let there = State { active_scene: Some(scene), ..s.without_scene() };
    lemma_filter_thins(s.sounding, |p: Play| p.root == Root::Show);
    lemma_thinned(s, there);
    let set = there.start_matching(Some(Root::Scene(scene)), s.time, Wanted::Autoplay);
    lemma_start_matching_quiet(there, Some(Root::Scene(scene)), s.time, Wanted::Autoplay);
    lemma_same(there, set);
    lemma_chain(s, there, set);
    lemma_play_autoplay_numbered(set, Root::Scene(scene));
    lemma_chain(s, set, s.enter_scene(scene));
}

proof fn lemma_cued_numbered(s: State, root: Root, path: Seq<usize>, name: Seq<char>, at: Num)
    ensures
        numbered_on(s, s.cued(root, path, name, at)),
{
    lemma_same(s, s);
    if let Some(media) = s.media_at(root, path) {
        let stopped = if media.stop.has(name) {
            s.silenced(root, path).unqueued(root, path)
        } else {
            s
        };
        if media.stop.has(name) {
            lemma_filter_thins(s.sounding, |p: Play| !p.on(root, path));
            lemma_thinned(s, stopped);
        }
        lemma_started_numbered(stopped, root, path, None, at);
        lemma_chain(s, stopped, stopped.started(root, path, None, at));
    }
}

proof fn lemma_cued_all_numbered(
    s: State,
    root: Root,
    paths: Seq<Seq<usize>>,
    name: Seq<char>,
    at: Num,
    n: nat,
)
    ensures
        numbered_on(s, s.cued_all(root, paths, name, at, n)),
    decreases n,
{
    if n == 0 || n > paths.len() {
        lemma_same(s, s);
    } else {
        let before = s.cued_all(root, paths, name, at, (n - 1) as nat);
        lemma_cued_all_numbered(s, root, paths, name, at, (n - 1) as nat);
        lemma_cued_numbered(before, root, paths[n - 1], name, at);
        lemma_chain(s, before, s.cued_all(root, paths, name, at, n));
    }
}

proof fn lemma_cued_tree_numbered(s: State, root: Root, name: Seq<char>, at: Num)
    ensures
        numbered_on(s, s.cued_tree(root, name, at)),
{
    lemma_same(s, s);
    if s.show is Some {
        let paths = media_paths(s.show->0, root);
        lemma_cued_all_numbered(s, root, paths, name, at, paths.len());
    }
}

/// A trigger gives out ids that no play had before.
pub proof fn lemma_trigger_numbers(s: State, name: Seq<char>, at: Num)
    ensures
        numbered_on(s, s.trigger_at(name, at)),
{
    reveal(State::trigger_at);
    let scene = match s.show {
        Some(show) => entered(show, name),
        None => None,
    };
    let there = match scene {
        Some(i) => s.enter_scene(i as usize),
        None => s,
    };
    lemma_same(s, s);
    if scene is Some {
        lemma_enter_scene_numbered(s, scene->0 as usize);
    }
    let begun = there.start_matching(None, at, Wanted::Trigger(name));
    lemma_start_matching_quiet(there, None, at, Wanted::Trigger(name));
    let set = begun.set_spinning(name);
    lemma_same(there, set);
    lemma_chain(s, there, set);
    let own = set.cued_tree(Root::Show, name, at);
    lemma_cued_tree_numbered(set, Root::Show, name, at);
    lemma_chain(s, set, own);
    if set.active_scene is Some {
        let root = Root::Scene(set.active_scene->0);
        lemma_cued_tree_numbered(own, root, name, at);
        lemma_chain(s, own, own.cued_tree(root, name, at));
    }
}

proof fn lemma_repointed_numbered(s: State, n: nat)
    ensures
        numbered_on(s, s.repointed_plays(n)),
        s.repointed_plays(n).sounding.len() == s.sounding.len(),
    decreases n,
{
    if n == 0 || n > s.sounding.len() {
        lemma_same(s, s);
    } else {
        let a = s.repointed_plays((n - 1) as nat);
        let b = s.repointed_plays(n);
        lemma_repointed_numbered(s, (n - 1) as nat);
        if mute(a, b) {
            lemma_same(a, b);
        } else {
            assert forall|i: int| 0 <= i < b.sounding.len() && b.next_voice < u64::MAX implies (
            #[trigger] b.sounding[i]).id > a.next_voice || a.sounding.contains(b.sounding[i]) by {
                if i != n - 1 {
                    assert(a.sounding[i] == b.sounding[i]);
                }
            }
            if known(a) && b.next_voice < u64::MAX {
                assert forall|i: int, j: int| 0 <= i < j < b.sounding.len() implies (
                #[trigger] b.sounding[i]).id != (#[trigger] b.sounding[j]).id by {
                    assert(a.sounding[i].id != a.sounding[j].id);
                    assert(a.sounding[i].id <= a.next_voice);
                    assert(a.sounding[j].id <= a.next_voice);
                }
                assert forall|i: int| 0 <= i < b.sounding.len() implies (
                #[trigger] b.sounding[i]).id <= b.next_voice by {
                    assert(a.sounding[i].id <= a.next_voice);
                }
            }
        }
        lemma_chain(s, a, b);
    }
}

proof fn lemma_played_all_numbered(s: State, root: Root, paths: Seq<Seq<usize>>, n: nat)
    ensures
        numbered_on(s, s.played_all(root, paths, n)),
    decreases n,
{
    if n == 0 || n > paths.len() {
        lemma_same(s, s);
    } else {
        let before = s.played_all(root, paths, (n - 1) as nat);
        lemma_played_all_numbered(s, root, paths, (n - 1) as nat);
        lemma_started_numbered(before, root, paths[n - 1], None, before.time);
        lemma_chain(s, before, s.played_all(root, paths, n));
    }
}

proof fn lemma_prepared_numbered(s: State, to: Num)
    ensures
        numbered_on(s, s.prepared(to)),
{
    reveal(State::prepared);
    reveal(State::settle_debounces);
    reveal(State::follow_transitions);
    reveal(State::follow_reels);
    reveal(State::play_repointed);
    lemma_follow_ducks_quiet(s);
    let a = s.follow_ducks();
    if a.show is Some {
        lemma_debounced_quiet(a, a.show->0, to, a.debounce_sites.len());
    }
    let b = a.settle_debounces(to);
    lemma_conditions_quiet(b);
    let c = b.follow_conditions();
    if c.show is Some {
        lemma_transitions_quiet(c, c.show->0, c.transition_sites.len());
    }
    let d = c.follow_transitions();
    if d.show is Some {
        lemma_reels_quiet(
            State { spinning: Seq::empty(), ..d },
            d.show->0,
            d.spinning,
            d.reel_sites.len(),
        );
    }
    let e = d.follow_reels();
    lemma_same(s, e);
    lemma_repointed_numbered(e, e.sounding.len());
    let f = e.repointed_plays(e.sounding.len());
    lemma_chain(s, e, f);
    if f.show is Some {
        let own = f.repointed_in(f.show->0, Root::Show);
        let g = f.played_all(Root::Show, own, own.len());
        lemma_played_all_numbered(f, Root::Show, own, own.len());
        lemma_chain(s, f, g);
        if f.active_scene is Some {
            let root = Root::Scene(f.active_scene->0);
            let there = f.repointed_in(f.show->0, root);
            lemma_played_all_numbered(g, root, there, there.len());
            lemma_chain(s, g, g.played_all(root, there, there.len()));
        }
    }
}

proof fn lemma_turns_numbered(s: State, turns: Seq<Turn>, freed: Seq<Freed>, n: nat)
    ensures
        numbered_on(s, s.turns_taken(turns, freed, n)),
    decreases n,
{
    if n == 0 || n > turns.len() {
        lemma_same(s, s);
    } else {
        let before = s.turns_taken(turns, freed, (n - 1) as nat);
        let t = turns[n - 1];
        let at = match crate::clock::freed_at(freed, t.root, t.path) {
            Some(at) => at,
            None => before.time,
        };
        lemma_turns_numbered(s, turns, freed, (n - 1) as nat);
        lemma_started_numbered(before, t.root, t.path, Some(t.asked), at);
        lemma_chain(s, before, s.turns_taken(turns, freed, n));
    }
}

proof fn lemma_ended_numbered(s: State, show: Show)
    ensures
        numbered_on(s, s.ended(show)),
{
    reveal(State::ended);
    let rest = State {
        playing: kept_timelines(show, s.time, s.playing, s.playing.len()),
        sounding: s.kept_plays(s.sounding.len()),
        ..s
    };
    lemma_kept_thins(s, s.sounding.len());
    assert(s.sounding.take(s.sounding.len() as int) =~= s.sounding);
    let line = rest.line(rest.waiting.len());
    let waiting = State { waiting: line.stay, ..rest };
    lemma_thinned(s, waiting);
    let freed = s.freed(s.sounding.len());
    lemma_turns_numbered(waiting, line.turn, freed, line.turn.len());
    lemma_chain(s, waiting, waiting.turns_taken(line.turn, freed, line.turn.len()));
}

proof fn lemma_fired_numbered(s: State, fires: Seq<(Seq<char>, Num)>, n: nat)
    ensures
        numbered_on(s, s.fired(fires, n)),
    decreases n,
{
    if n == 0 || n > fires.len() {
        lemma_same(s, s);
    } else {
        let before = s.fired(fires, (n - 1) as nat);
        let (name, at) = fires[n - 1];
        lemma_fired_numbered(s, fires, (n - 1) as nat);
        lemma_trigger_numbers(before, name, at);
        let there = before.trigger_at(name, at);
        lemma_chain(s, before, there);
        lemma_same(there, there.reported(name));
        lemma_chain(s, there, there.reported(name));
    }
}

/// A step gives out ids that no play had before.
pub proof fn lemma_step_numbers(s: State, to: Num)
    ensures
        numbered_on(s, s.step(to)),
{
    reveal(State::step);
    let ready = s.prepared(to);
    lemma_prepared_numbered(s, to);
    let there = State { time: to, ..ready };
    lemma_same(ready, there);
    lemma_chain(s, ready, there);
    if there.show is Some {
        let show = there.show->0;
        let fires = there.fires(show);
        let left = there.ended(show);
        lemma_ended_numbered(there, show);
        lemma_chain(s, there, left);
        let told = left.fired(fires, fires.len());
        lemma_fired_numbered(left, fires, fires.len());
        lemma_chain(s, left, told);
        lemma_follow_ducks_quiet(told);
        lemma_same(told, told.follow_ducks());
        lemma_chain(s, told, told.follow_ducks());
    }
}

proof fn lemma_advanced_numbered(s: State, end: Num, left: nat)
    ensures
        numbered_on(s, s.advanced(end, left)),
    decreases left,
{
    if left == 0 {
        lemma_step_numbers(s, end);
    } else {
        let next = s.next_change(end);
        let there = s.step(next);
        lemma_step_numbers(s, next);
        if !at_most(end, there.time) {
            lemma_advanced_numbered(there, end, (left - 1) as nat);
            lemma_chain(s, there, there.advanced(end, (left - 1) as nat));
        }
    }
}

/// Advancing the clock gives out ids that no play had before: a play found behind it is one
/// that was there, unchanged, or one that was never seen.
pub proof fn lemma_advance_numbers(s: State, to: Num)
    ensures
        numbered_on(s, s.advance_to(to)),
{
    lemma_same(s, s);
    lemma_advanced_numbered(s, to, MAX_SUBSTEPS as nat);
}

/// Restarting a show does not give out the ids of earlier plays again.
pub proof fn lemma_restart_numbers(s: State)
    ensures
        numbered_on(s, s.restart()),
{
    lemma_same(s, s);
    if s.show is Some {
        let show = s.show->0;
        let a = s.rewound(show);
        lemma_thinned(s, a);
        let b = a.start_matching(Some(Root::Show), num(0), Wanted::Autoplay);
        lemma_start_matching_quiet(a, Some(Root::Show), num(0), Wanted::Autoplay);
        lemma_same(a, b);
        lemma_chain(s, a, b);
        let c = b.play_autoplay(Root::Show);
        lemma_play_autoplay_numbered(b, Root::Show);
        lemma_chain(s, b, c);
        let d = c.start_matching(Some(Root::Scene(0)), num(0), Wanted::Autoplay);
        lemma_start_matching_quiet(c, Some(Root::Scene(0)), num(0), Wanted::Autoplay);
        lemma_same(c, d);
        lemma_chain(s, c, d);
        lemma_play_autoplay_numbered(d, Root::Scene(0));
        lemma_chain(s, d, d.play_autoplay(Root::Scene(0)));
    }
}

/// A new engine has no play, so that every play it ever has gets an id of its own.
pub proof fn lemma_new_is_known(revision: u64)
    ensures
        known(State { revision, ..State::empty() }),
{
}

} // verus!
