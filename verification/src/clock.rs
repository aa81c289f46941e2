//! The show's clock: how time advances, what ends, and what that fires.

use crate::bind::{pace_in, timing_in};
use crate::lists::{first_where, lemma_filter_none, lemma_filter_step, some_is};
use crate::model::{MediaInfo, Retrigger, Show};
use crate::num::{at_most, less, num, product_of, sum_of, Num};
use crate::play::{media_path_list, media_paths, path_views};
use crate::sites::{layer_site, Site};
use crate::state::{
    event_names, plays_of, runnings, turns_of, Engine, Event, Play, Playhead, Running, Sounding,
    State, Turn, Waiting, MAX_PENDING_EVENTS, MAX_SUBSTEPS, SAME_INSTANT,
};
use crate::text::same_text;
use crate::tree::{copy_path, Root};
use vstd::prelude::*;

verus! {

/// An instant, with the hair's width within which instants are the same.
pub open spec fn about(t: Num) -> Num {
    sum_of(t, num(SAME_INSTANT))
}

/// What became of a playhead when the clock reached `now`: what is left of it, and the
/// trigger it fires with the instant it finished.
pub open spec fn after_timeline(show: Show, now: Num, p: Running) -> (
    Option<Running>,
    Option<(Seq<char>, Num)>,
) {
    match pace_in(show, p) {
        None => (None, None),
        Some(pace) => if p.held || less(about(now), p.starts) || (pace.looping && less(
            num(0),
            pace.duration,
        )) {
            (Some(p), None)
        } else if at_most(pace.duration, num(0)) || at_most(p.finish(pace), about(now)) {
            let ends = if at_most(pace.duration, num(0)) {
                now
            } else {
                p.finish(pace)
            };
            let fires = match pace.on_end {
                Some(name) => Some((name@, ends)),
                None => None,
            };
            // Holding is not playing: it ends, fires once, and then keeps its last values.
            if pace.hold && !pace.looping && less(num(0), pace.duration) {
                (Some(Running { held: true, ..p }), fires)
            } else {
                (None, fires)
            }
        } else {
            (Some(p), None)
        },
    }
}

/// A list with one more item, if there is one.
pub open spec fn with<T>(list: Seq<T>, more: Option<T>) -> Seq<T> {
    match more {
        Some(x) => list.push(x),
        None => list,
    }
}

/// What is left of the first `n` playheads.
pub open spec fn kept_timelines(show: Show, now: Num, list: Seq<Running>, n: nat) -> Seq<Running>
    decreases n,
{
    if n == 0 || n > list.len() {
        Seq::empty()
    } else {
        with(
            kept_timelines(show, now, list, (n - 1) as nat),
            after_timeline(show, now, list[n - 1]).0,
        )
    }
}

/// What the first `n` playheads fire.
pub open spec fn timeline_fires(show: Show, now: Num, list: Seq<Running>, n: nat) -> Seq<
    (Seq<char>, Num),
>
    decreases n,
{
    if n == 0 || n > list.len() {
        Seq::empty()
    } else {
        with(
            timeline_fires(show, now, list, (n - 1) as nat),
            after_timeline(show, now, list[n - 1]).1,
        )
    }
}

/// A layer that fell idle, and when.
pub ghost struct Freed {
    pub root: Root,
    pub path: Seq<usize>,
    pub at: Num,
}

/// The name the first of some layers asks for.
pub open spec fn freed_at(list: Seq<Freed>, root: Root, path: Seq<usize>) -> Option<Num> {
    match first_where(list, |f: Freed| f.root == root && f.path == path, 0) {
        Some(i) => Some(list[i].at),
        None => None,
    }
}

/// The waiting plays that stay in line, and those whose turn it is.
#[verifier::ext_equal]
pub ghost struct Line {
    pub stay: Seq<Turn>,
    pub turn: Seq<Turn>,
}

impl State {
    /// The instant a play ends, if its content is registered and it ends at all.
    pub open spec fn play_ends(self, media: MediaInfo, play: Play) -> Option<Num> {
        match self.media_length(media, play.playing) {
            Some(length) => Some(
                sum_of(
                    sum_of(play.started, media.wait()),
                    product_of(length, media.plays()),
                ),
            ),
            None => None,
        }
    }

    /// What became of a play when the clock reached the present: whether it goes on, the
    /// instant its layer fell idle, and the trigger it fires.
    pub open spec fn after_play(self, play: Play) -> (
        bool,
        Option<Freed>,
        Option<(Seq<char>, Num)>,
    ) {
        match self.media_at(play.root, play.path) {
            None => (false, None, None),
            Some(media) => if media.looping {
                (true, None, None)
            } else {
                match self.play_ends(media, play) {
                    None => (true, None, None),
                    Some(ends) => if at_most(ends, about(self.time)) {
                        (
                            false,
                            Some(Freed { root: play.root, path: play.path, at: ends }),
                            match media.on_end {
                                Some(name) => Some((name@, ends)),
                                None => None,
                            },
                        )
                    } else {
                        (true, None, None)
                    },
                }
            },
        }
    }

    pub open spec fn kept_plays(self, n: nat) -> Seq<Play>
        decreases n,
    {
        if n == 0 || n > self.sounding.len() {
            Seq::empty()
        } else {
            let play = self.sounding[n - 1];
            with(
                self.kept_plays((n - 1) as nat),
                if self.after_play(play).0 {
                    Some(play)
                } else {
                    None
                },
            )
        }
    }

    pub open spec fn freed(self, n: nat) -> Seq<Freed>
        decreases n,
    {
        if n == 0 || n > self.sounding.len() {
            Seq::empty()
        } else {
            with(self.freed((n - 1) as nat), self.after_play(self.sounding[n - 1]).1)
        }
    }

    pub open spec fn play_fires(self, n: nat) -> Seq<(Seq<char>, Num)>
        decreases n,
    {
        if n == 0 || n > self.sounding.len() {
            Seq::empty()
        } else {
            with(self.play_fires((n - 1) as nat), self.after_play(self.sounding[n - 1]).2)
        }
    }

    /// The first `n` waiting plays: a layer that is idle takes the first one waiting for it.
    pub open spec fn line(self, n: nat) -> Line
        decreases n,
    {
        if n == 0 || n > self.waiting.len() {
            Line { stay: Seq::empty(), turn: Seq::empty() }
        } else {
            let before = self.line((n - 1) as nat);
            let next = self.waiting[n - 1];
            if self.busy(next.root, next.path) || some_is(
                before.turn,
                |t: Turn| t.on(next.root, next.path),
            ) {
                Line { stay: before.stay.push(next), ..before }
            } else {
                Line { turn: before.turn.push(next), ..before }
            }
        }
    }

    /// With the first `n` of some turns played, each from the instant its layer fell idle.
    pub open spec fn turns_taken(self, turns: Seq<Turn>, freed: Seq<Freed>, n: nat) -> State
        decreases n,
    {
        if n == 0 || n > turns.len() {
            self
        } else {
            let before = self.turns_taken(turns, freed, (n - 1) as nat);
            let t = turns[n - 1];
            let at = match freed_at(freed, t.root, t.path) {
                Some(at) => at,
                None => before.time,
            };
            before.started(t.root, t.path, Some(t.asked), at)
        }
    }

    /// With one more event, the oldest dropped where there are too many.
    pub open spec fn reported(self, name: Seq<char>) -> State {
        State {
            events: (if self.events.len() == MAX_PENDING_EVENTS {
                self.events.drop_first()
            } else {
                self.events
            }).push(name),
            ..self
        }
    }

    /// With the first `n` of some triggers fired, each at its instant, and reported.
    pub open spec fn fired(self, fires: Seq<(Seq<char>, Num)>, n: nat) -> State
        decreases n,
    {
        if n == 0 || n > fires.len() {
            self
        } else {
            let (name, at) = fires[n - 1];
            self.fired(fires, (n - 1) as nat).trigger_at(name, at).reported(name)
        }
    }

    /// What becomes of one running play whose layer is pointed elsewhere.
    pub open spec fn repointed_play(self, i: int) -> State {
        let play = self.sounding[i];
        match self.pointed(play.root, play.path) {
            None => self,
            Some(now) => if now == play.playing {
                self
            } else {
                let media = self.media_at(play.root, play.path);
                let retrigger = match media {
                    Some(m) => m.retrigger,
                    None => Retrigger::Restart,
                };
                match retrigger {
                    Retrigger::Ignore => self,
                    Retrigger::Queue => {
                        let mine = self.turns_on(play.root, play.path);
                        let voices: nat = match media {
                            Some(m) => if m.voices > 1 {
                                m.voices as nat
                            } else {
                                1
                            },
                            None => 1,
                        };
                        // One ask, however many frames it stays pointed there.
                        if (mine.len() > 0 && mine.last().asked == now) || mine.len() >= voices {
                            self
                        } else {
                            State {
                                waiting: self.waiting.push(
                                    Turn { root: play.root, path: play.path, asked: now },
                                ),
                                ..self
                            }
                        }
                    },
                    _ => {
                        let id = self.next_voice.saturating_add(1);
                        State {
                            next_voice: id,
                            sounding: self.sounding.update(
                                i,
                                Play { playing: now, started: self.time, id, ..play },
                            ),
                            shown: self.shown.insert(layer_site(play.root, play.path), now),
                            ..self
                        }
                    },
                }
            },
        }
    }

    /// With the first `n` running plays following where their layers are pointed.
    pub open spec fn repointed_plays(self, n: nat) -> State
        decreases n,
    {
        if n == 0 || n > self.sounding.len() {
            self
        } else {
            self.repointed_plays((n - 1) as nat).repointed_play(n - 1)
        }
    }

    /// Whether an idle layer is pointed at media it has not just shown.
    pub open spec fn wants_play(self, root: Root, path: Seq<usize>) -> bool {
        let site = layer_site(root, path);
        !self.busy(root, path) && match self.pointed(root, path) {
            Some(now) => now.len() != 0 && !(self.shown.contains_key(site) && self.shown[site]
                == now),
            None => false,
        }
    }

    /// The layers of a tree that are pointed at media they are not playing.
    pub open spec fn repointed_in(self, show: Show, root: Root) -> Seq<Seq<usize>> {
        media_paths(show, root).filter(|p: Seq<usize>| self.wants_play(root, p))
    }

    /// With the first `n` of some layers played now.
    pub open spec fn played_all(self, root: Root, paths: Seq<Seq<usize>>, n: nat) -> State
        decreases n,
    {
        if n == 0 || n > paths.len() {
            self
        } else {
            let before = self.played_all(root, paths, (n - 1) as nat);
            before.started(root, paths[n - 1], None, before.time)
        }
    }

    /// With every layer played that is pointed at media it is not playing.
    #[verifier::opaque]
    pub open spec fn play_repointed(self) -> State {
        match self.show {
            None => self,
            Some(show) => {
                let own = self.repointed_in(show, Root::Show);
                let first = self.played_all(Root::Show, own, own.len());
                match self.active_scene {
                    Some(scene) => {
                        let there = self.repointed_in(show, Root::Scene(scene));
                        first.played_all(Root::Scene(scene), there, there.len())
                    },
                    None => first,
                }
            },
        }
    }

    /// Everything noted at the start of a step that lands on `to`.
    #[verifier::opaque]
    pub open spec fn prepared(self, to: Num) -> State {
        let noted =
            self.follow_ducks().settle_debounces(
            to,
        ).follow_conditions().follow_transitions().follow_reels();
        noted.repointed_plays(noted.sounding.len()).play_repointed()
    }

    /// With what ended by the present taken away, and whoever waited given its turn.
    #[verifier::opaque]
    pub open spec fn ended(self, show: Show) -> State {
        let rest = State {
            playing: kept_timelines(show, self.time, self.playing, self.playing.len()),
            sounding: self.kept_plays(self.sounding.len()),
            ..self
        };
        let line = rest.line(rest.waiting.len());
        State { waiting: line.stay, ..rest }.turns_taken(
            line.turn,
            self.freed(self.sounding.len()),
            line.turn.len(),
        )
    }

    /// What ended by the present fires, timelines first.
    pub open spec fn fires(self, show: Show) -> Seq<(Seq<char>, Num)> {
        timeline_fires(show, self.time, self.playing, self.playing.len()) + self.play_fires(
            self.sounding.len(),
        )
    }

    /// One indivisible move of the clock, landing exactly on `to`.
    #[verifier::opaque]
    pub open spec fn step(self, to: Num) -> State {
        let there = State { time: to, ..self.prepared(to) };
        match there.show {
            None => there,
            Some(show) => {
                let fires = there.fires(show);
                there.ended(show).fired(fires, fires.len()).follow_ducks()
            },
        }
    }

    /// The earliest end among the first `n` playheads, after the present and before `end`.
    pub open spec fn next_timeline(self, show: Show, end: Num, n: nat) -> Num
        decreases n,
    {
        if n == 0 || n > self.playing.len() {
            end
        } else {
            let first = self.next_timeline(show, end, (n - 1) as nat);
            let p = self.playing[n - 1];
            match pace_in(show, p) {
                None => first,
                Some(pace) => if p.held || pace.looping || at_most(pace.duration, num(0)) {
                    first
                } else {
                    earlier(self.time, first, p.finish(pace))
                },
            }
        }
    }

    /// The earliest start or end among the first `n` plays, after the present and before
    /// `end`.
    pub open spec fn next_play(self, end: Num, n: nat) -> Num
        decreases n,
    {
        if n == 0 || n > self.sounding.len() {
            end
        } else {
            let first = self.next_play(end, (n - 1) as nat);
            let play = self.sounding[n - 1];
            match self.media_at(play.root, play.path) {
                None => first,
                Some(media) => if media.looping {
                    first
                } else {
                    match self.play_ends(media, play) {
                        None => first,
                        Some(ends) => earlier(
                            self.time,
                            earlier(self.time, first, sum_of(play.started, media.wait())),
                            ends,
                        ),
                    }
                },
            }
        }
    }

    /// The instant something next changes, or `end` if nothing does before then.
    #[verifier::opaque]
    pub open spec fn next_change(self, end: Num) -> Num {
        match self.show {
            None => end,
            Some(show) => self.next_play(
                self.next_timeline(show, end, self.playing.len()),
                self.sounding.len(),
            ),
        }
    }

    /// The clock advanced to `end` in at most `left` parts, each up to the next thing that
    /// ends, and then in one.
    pub open spec fn advanced(self, end: Num, left: nat) -> State
        decreases left,
    {
        if left == 0 {
            self.step(end)
        } else {
            let there = self.step(self.next_change(end));
            if at_most(end, there.time) {
                there
            } else {
                there.advanced(end, (left - 1) as nat)
            }
        }
    }

    /// The clock advanced to an instant; going backwards does nothing.
    pub open spec fn advance_to(self, to: Num) -> State {
        if less(to, self.time) {
            self
        } else {
            self.advanced(to, MAX_SUBSTEPS as nat)
        }
    }
}

/// `t`, where it comes after the present and before `first`; else `first`.
pub open spec fn earlier(now: Num, first: Num, t: Num) -> Num {
    if less(about(now), t) && less(t, first) {
        t
    } else {
        first
    }
}

fn earlier_of(now: Num, first: Num, t: Num) -> (r: Num)
    ensures
        r == earlier(now, first, t),
{
    if now.plus(num(SAME_INSTANT)).lt(t) && t.lt(first) {
        t
    } else {
        first
    }
}

pub open spec fn fire_views(list: Seq<(String, Num)>) -> Seq<(Seq<char>, Num)> {
    list.map_values(|f: (String, Num)| (f.0@, f.1))
}

impl Engine {
    /// The instant something next changes, or `end` if nothing does before then.
    fn next_change(&self, end: Num) -> (r: Num)
        ensures
            r == self@.next_change(end),
    {
        proof {
            reveal(State::next_change);
        }
        let show = match &self.show {
            Some(show) => show,
            None => {
                return end;
            },
        };
        let mut first = end;
        let mut i: usize = 0;
        while i < self.playing.len()
            invariant
                i <= self.playing.len(),
                first == self@.next_timeline(*show, end, i as nat),
            decreases self.playing.len() - i,
        {
            let p = &self.playing[i];
            assert(self@.playing[i as int] == p@);
            if let Some(tl) = timing_in(show, p) {
                if !p.held && !tl.looping && !tl.duration.le(num(0)) {
                    first = earlier_of(self.time, first, p.ends(&tl));
                }
            }
            i = i + 1;
        }
        let ghost before = first;
        let mut k: usize = 0;
        while k < self.sounding.len()
            invariant
                k <= self.sounding.len(),
                first == self@.next_play(before, k as nat),
            decreases self.sounding.len() - k,
        {
            let play = &self.sounding[k];
            assert(self@.sounding[k as int] == play@);
            if let Some(media) = self.media_at(play.root, &play.layer_path) {
                if !media.looping {
                    if let Some(length) = self.media_duration(&media, play.playing.as_str()) {
                        let starts = play.started.plus(media.wait());
                        // When it starts sounding, as well as when it stops.
                        first = earlier_of(self.time, first, starts);
                        first = earlier_of(
                            self.time,
                            first,
                            starts.plus(length.times(media.plays())),
                        );
                    }
                }
            }
            k = k + 1;
        }
        first
    }

    fn repoint_play(&mut self, i: usize)
        requires
            i < old(self)@.sounding.len(),
        ensures
            final(self)@ == old(self)@.repointed_play(i as int),
    {
        let (root, path) = (self.sounding[i].root, copy_path(&self.sounding[i].layer_path));
        let ghost play = self@.sounding[i as int];
        assert(play == self.sounding@[i as int]@);
        let now = match self.pointed(root, &path) {
            Some(now) => now,
            None => {
                return ;
            },
        };
        if same_text(now.as_str(), self.sounding[i].playing.as_str()) {
            return ;
        }
        let (retrigger, voices): (Retrigger, usize) = match self.media_at(root, &path) {
            Some(media) => (
                media.retrigger,
                if media.voices > 1 {
                    media.voices as usize
                } else {
                    1
                },
            ),
            None => (Retrigger::Restart, 1),
        };
        let ghost was = self@;
        match retrigger {
            Retrigger::Ignore => {},
            Retrigger::Queue => {
                let count: usize = self.count_turns(root, &path);
                let asked = self.last_turn_is(root, &path, now.as_str());
                if !asked && count < voices {
                    self.waiting.push(Waiting { root, path: copy_path(&path), asked: now });
                    assert(self@.waiting =~= was.waiting.push(
                        Turn { root, path: path@, asked: now@ },
                    ));
                    assert(self@ =~= was.repointed_play(i as int));
                }
            },
            _ => {
                self.next_voice = self.next_voice.saturating_add(1);
                let id: u64 = self.next_voice;
                let shown = now.clone();
                self.sounding[i] = Sounding {
                    root,
                    layer_path: copy_path(&path),
                    id,
                    started: self.time,
                    playing: now,
                };
                assert(plays_of(self.sounding@) =~= was.sounding.update(
                    i as int,
                    Play { playing: shown@, started: self.time, id, ..play },
                ));
                // Being pointed somewhere new in place is still a play of that clip.
                self.shown.insert(Site::of_layer(root, &path), shown);
                assert(self@ =~= was.repointed_play(i as int));
            },
        }
    }

    /// Whether the last turn waiting for a layer asks for `name`.
    fn last_turn_is(&self, root: Root, path: &Vec<usize>, name: &str) -> (r: bool)
        ensures
            r == ({
                let mine = self@.turns_on(root, path@);
                mine.len() > 0 && mine.last().asked == name@
            }),
    {
        let ghost pred = |t: Turn| t.on(root, path@);
        let ghost all = self@.waiting;
        let mut last = false;
        let mut i: usize = 0;
        proof {
            lemma_filter_none(all, pred);
        }
        while i < self.waiting.len()
            invariant
                i <= self.waiting.len(),
                all == self@.waiting,
                pred == (|t: Turn| t.on(root, path@)),
                last == ({
                    let mine = all.take(i as int).filter(pred);
                    mine.len() > 0 && mine.last().asked == name@
                }),
            decreases self.waiting.len() - i,
        {
            proof {
                lemma_filter_step(all, pred, i as int);
            }
            assert(all[i as int] == self.waiting@[i as int]@);
            if self.waiting[i].on(root, path) {
                last = same_text(self.waiting[i].asked.as_str(), name);
            }
            i = i + 1;
        }
        assert(all.take(i as int) =~= all);
        last
    }

    /// The layers of a tree pointed at media they are not playing.
    fn repointed(&self, show: &Show, root: Root) -> (r: Vec<Vec<usize>>)
        requires
            self@.show == Some(*show),
        ensures
            path_views(r@) == self@.repointed_in(*show, root),
    {
        let paths = media_path_list(show, root);
        let ghost all = media_paths(*show, root);
        let ghost pred = |p: Seq<usize>| self@.wants_play(root, p);
        let mut out: Vec<Vec<usize>> = Vec::new();
        let mut i: usize = 0;
        proof {
            lemma_filter_none(all, pred);
            assert(path_views(out@) =~= Seq::<Seq<usize>>::empty());
        }
        while i < paths.len()
            invariant
                i <= paths.len(),
                path_views(paths@) == all,
                pred == (|p: Seq<usize>| self@.wants_play(root, p)),
                path_views(out@) == all.take(i as int).filter(pred),
            decreases paths.len() - i,
        {
            let path = &paths[i];
            assert(all[i as int] == path@);
            proof {
                lemma_filter_step(all, pred, i as int);
            }
            let wants = if self.is_busy(root, path) {
                false
            } else {
                match self.pointed(root, path) {
                    Some(now) => {
                        let site = Site::of_layer(root, path);
                        let last = match self.shown.get(&site) {
                            Some(last) => same_text(last.as_str(), now.as_str()),
                            None => false,
                        };
                        now.as_str().unicode_len() != 0 && !last
                    },
                    None => false,
                }
            };
            if wants {
                let ghost before = path_views(out@);
                out.push(copy_path(path));
                assert(path_views(out@) =~= before.push(path@));
            }
            i = i + 1;
        }
        assert(all.take(i as int) =~= all);
        out
    }

    fn play_all(&mut self, root: Root, paths: &Vec<Vec<usize>>)
        ensures
            final(self)@ == old(self)@.played_all(root, path_views(paths@), paths@.len()),
    {
        let ghost was = self@;
        let ghost all = path_views(paths@);
        let mut i: usize = 0;
        while i < paths.len()
            invariant
                i <= paths.len(),
                all == path_views(paths@),
                self@ == was.played_all(root, all, i as nat),
            decreases paths.len() - i,
        {
            assert(all[i as int] == paths@[i as int]@);
            self.play(root, &paths[i], self.time);
            i = i + 1;
        }
    }

    fn play_repointed(&mut self)
        ensures
            final(self)@ == old(self)@.play_repointed(),
    {
        proof {
            reveal(State::play_repointed);
        }
        let active = self.active_scene;
        let (own, there) = match &self.show {
            Some(show) => {
                let own = self.repointed(show, Root::Show);
                let there = match active {
                    Some(scene) => self.repointed(show, Root::Scene(scene)),
                    None => Vec::new(),
                };
                (own, there)
            },
            None => {
                return ;
            },
        };
        self.play_all(Root::Show, &own);
        if let Some(scene) = active {
            self.play_all(Root::Scene(scene), &there);
        }
    }

    fn prepare(&mut self, to: Num)
        ensures
            final(self)@ == old(self)@.prepared(to),
    {
        proof {
            reveal(State::prepared);
        }
        // Also before the step, not only after it: a play triggered between two frames starts
        // the bus at the instant the step begins.
        self.follow_ducks();
        self.settle_debounces(to);
        self.follow_conditions();
        self.follow_transitions();
        self.follow_reels();
        let ghost was = self@;
        let mut i: usize = 0;
        while i < self.sounding.len()
            invariant
                i <= was.sounding.len(),
                self@.sounding.len() == was.sounding.len(),
                self.sounding@.len() == was.sounding.len(),
                self@ == was.repointed_plays(i as nat),
            decreases was.sounding.len() - i,
        {
            self.repoint_play(i);
            assert(self@.sounding.len() == self.sounding@.len());
            i = i + 1;
        }
        self.play_repointed();
    }

    /// Takes away the playheads that ended by now; what they fire is added to `fires`.
    fn end_timelines(&mut self, fires: &mut Vec<(String, Num)>)
        requires
            old(self)@.show is Some,
        ensures
            final(self)@ == (State {
                playing: kept_timelines(
                    old(self)@.show->0,
                    old(self)@.time,
                    old(self)@.playing,
                    old(self)@.playing.len(),
                ),
                ..old(self)@
            }),
            fire_views(final(fires)@) == fire_views(old(fires)@) + timeline_fires(
                old(self)@.show->0,
                old(self)@.time,
                old(self)@.playing,
                old(self)@.playing.len(),
            ),
    {
        let ghost was = self@;
        let ghost show = was.show->0;
        let ghost before = fire_views(fires@);
        let now = self.time;
        let ghost mut done: int = 0;
        let mut i: usize = 0;
        assert(was.playing.skip(0) =~= was.playing);
        assert(Seq::<Running>::empty() + was.playing =~= was.playing);
        assert(before + Seq::<(Seq<char>, Num)>::empty() =~= before);
        while i < self.playing.len()
            invariant
                0 <= done <= was.playing.len(),
                was.show == Some(show),
                self.show == was.show,
                now == was.time,
                i == kept_timelines(show, now, was.playing, done as nat).len(),
                runnings(self.playing@) == kept_timelines(show, now, was.playing, done as nat)
                    + was.playing.skip(done),
                self@ == (State { playing: runnings(self.playing@), ..was }),
                fire_views(fires@) == before + timeline_fires(
                    show,
                    now,
                    was.playing,
                    done as nat,
                ),
            decreases was.playing.len() - done,
        {
            let ghost here = runnings(self.playing@);
            let ghost kept = kept_timelines(show, now, was.playing, done as nat);
            let ghost fired = fire_views(fires@);
            let ghost p0 = was.playing[done];
            proof {
                assert(here.len() == i + (was.playing.len() - done));
                assert(here[i as int] == was.playing.skip(done)[0]);
                assert(here[i as int] == self.playing@[i as int]@);
                assert(kept_timelines(show, now, was.playing, (done + 1) as nat) == with(
                    kept,
                    after_timeline(show, now, p0).0,
                ));
                assert(timeline_fires(show, now, was.playing, (done + 1) as nat) == with(
                    timeline_fires(show, now, was.playing, done as nat),
                    after_timeline(show, now, p0).1,
                ));
            }
            // 0: goes on, 1: stays held, 2: is gone
            let mut fate: u8 = 0;
            if let Some(show) = &self.show {
                let p = &self.playing[i];
                match timing_in(show, p) {
                    None => {
                        fate = 2;
                    },
                    Some(tl) => {
                        if p.held || now.plus(num(SAME_INSTANT)).lt(p.starts) || (tl.looping
                            && num(0).lt(tl.duration)) {
                        } else if tl.duration.le(num(0)) || p.ends(&tl).le(
                            now.plus(num(SAME_INSTANT)),
                        ) {
                            // Compared as instants on the one clock, the same way the step
                            // that landed here was chosen.
                            let ends = if tl.duration.le(num(0)) {
                                now
                            } else {
                                p.ends(&tl)
                            };
                            if let Some(name) = tl.on_end {
                                fires.push((name.clone(), ends));
                                assert(fire_views(fires@) =~= fired.push((name@, ends)));
                            }
                            fate = if tl.hold && !tl.looping && num(0).lt(tl.duration) {
                                1
                            } else {
                                2
                            };
                        }
                    },
                }
            }
            assert(fire_views(fires@) =~= before + timeline_fires(
                show,
                now,
                was.playing,
                (done + 1) as nat,
            ));
            if fate == 2 {
                assert(after_timeline(show, now, p0).0 is None);
                self.playing.remove(i);
                assert(runnings(self.playing@) =~= here.remove(i as int));
                assert(runnings(self.playing@) =~= kept + was.playing.skip(done + 1));
            } else if fate == 1 {
                assert(after_timeline(show, now, p0).0 == Some(Running { held: true, ..p0 }));
                let p = self.playing.remove(i);
                self.playing.insert(
                    i,
                    Playhead {
                        owner: p.owner,
                        timeline: p.timeline,
                        starts: p.starts,
                        held: true,
                    },
                );
                assert(runnings(self.playing@) =~= here.update(
                    i as int,
                    Running { held: true, ..p0 },
                ));
                assert(runnings(self.playing@) =~= kept.push(Running { held: true, ..p0 })
                    + was.playing.skip(done + 1));
                i = i + 1;
            } else {
                assert(after_timeline(show, now, p0).0 == Some(p0));
                assert(runnings(self.playing@) =~= kept.push(p0) + was.playing.skip(done + 1));
                i = i + 1;
            }
            proof {
                done = done + 1;
                assert(self@ =~= State { playing: runnings(self.playing@), ..was });
            }
        }
        proof {
            assert(done == was.playing.len());
            assert(runnings(self.playing@) =~= kept_timelines(
                show,
                now,
                was.playing,
                was.playing.len(),
            ));
        }
    }
}

pub open spec fn freed_views(list: Seq<(Root, Vec<usize>, Num)>) -> Seq<Freed> {
    list.map_values(|f: (Root, Vec<usize>, Num)| Freed { root: f.0, path: f.1@, at: f.2 })
}

fn has_turn(list: &Vec<Waiting>, root: Root, path: &Vec<usize>) -> (r: bool)
    ensures
        r == some_is(turns_of(list@), |t: Turn| t.on(root, path@)),
{
    let ghost pred = |t: Turn| t.on(root, path@);
    let mut i: usize = 0;
    while i < list.len()
        invariant
            i <= list.len(),
            pred == (|t: Turn| t.on(root, path@)),
            forall|j: int| 0 <= j < i ==> !pred(#[trigger] turns_of(list@)[j]),
        decreases list.len() - i,
    {
        assert(turns_of(list@)[i as int] == list@[i as int]@);
        if list[i].on(root, path) {
            assert(pred(turns_of(list@)[i as int]));
            return true;
        }
        i = i + 1;
    }
    false
}

fn when_freed(list: &Vec<(Root, Vec<usize>, Num)>, root: Root, path: &Vec<usize>) -> (r: Option<
    Num,
>)
    ensures
        r == freed_at(freed_views(list@), root, path@),
{
    let ghost all = freed_views(list@);
    let ghost pred = |f: Freed| f.root == root && f.path == path@;
    let mut i: usize = 0;
    while i < list.len()
        invariant
            i <= list.len(),
            all == freed_views(list@),
            pred == (|f: Freed| f.root == root && f.path == path@),
            first_where(all, pred, 0) == first_where(all, pred, i as int),
        decreases list.len() - i,
    {
        assert(all[i as int] == (Freed {
            root: list@[i as int].0,
            path: list@[i as int].1@,
            at: list@[i as int].2,
        }));
        if list[i].0 == root && crate::sites::same_path(&list[i].1, path) {
            return Some(list[i].2);
        }
        i = i + 1;
    }
    None
}

impl Engine {
    /// Takes away the plays that ended by now; the layers they leave idle are added to
    /// `freed`, and what they fire to `fires`.
    fn end_plays(&mut self, freed: &mut Vec<(Root, Vec<usize>, Num)>, fires: &mut Vec<(String, Num)>)
        requires
            old(freed)@.len() == 0,
        ensures
            final(self)@ == (State {
                sounding: old(self)@.kept_plays(old(self)@.sounding.len()),
                ..old(self)@
            }),
            freed_views(final(freed)@) == old(self)@.freed(old(self)@.sounding.len()),
            fire_views(final(fires)@) == fire_views(old(fires)@) + old(self)@.play_fires(
                old(self)@.sounding.len(),
            ),
    {
        let ghost was = self@;
        let ghost before = fire_views(fires@);
        let ghost mut done: int = 0;
        let mut i: usize = 0;
        assert(was.sounding.skip(0) =~= was.sounding);
        assert(Seq::<Play>::empty() + was.sounding =~= was.sounding);
        assert(before + Seq::<(Seq<char>, Num)>::empty() =~= before);
        assert(freed_views(freed@) =~= Seq::<Freed>::empty());
        while i < self.sounding.len()
            invariant
                0 <= done <= was.sounding.len(),
                i == was.kept_plays(done as nat).len(),
                plays_of(self.sounding@) == was.kept_plays(done as nat) + was.sounding.skip(done),
                self@ == (State { sounding: plays_of(self.sounding@), ..was }),
                freed_views(freed@) == was.freed(done as nat),
                fire_views(fires@) == before + was.play_fires(done as nat),
            decreases was.sounding.len() - done,
        {
            let ghost here = plays_of(self.sounding@);
            let ghost kept = was.kept_plays(done as nat);
            let ghost fired = fire_views(fires@);
            let ghost idle = freed_views(freed@);
            let ghost p0 = was.sounding[done];
            proof {
                assert(here.len() == i + (was.sounding.len() - done));
                assert(here[i as int] == was.sounding.skip(done)[0]);
                assert(here[i as int] == self.sounding@[i as int]@);
            }
            let mut over = false;
            {
                let play = &self.sounding[i];
                match self.media_at(play.root, &play.layer_path) {
                    None => {
                        over = true;
                    },
                    Some(media) => {
                        if !media.looping {
                            // Content the host has not registered yet has no end.
                            if let Some(length) = self.media_duration(
                                &media,
                                play.playing.as_str(),
                            ) {
                                let ends = play.started.plus(media.wait()).plus(
                                    length.times(media.plays()),
                                );
                                if ends.le(self.time.plus(num(SAME_INSTANT))) {
                                    over = true;
                                    freed.push((play.root, copy_path(&play.layer_path), ends));
                                    assert(freed_views(freed@) =~= idle.push(
                                        Freed { root: p0.root, path: p0.path, at: ends },
                                    ));
                                    if let Some(name) = media.on_end {
                                        fires.push((name.clone(), ends));
                                        assert(fire_views(fires@) =~= fired.push((name@, ends)));
                                    }
                                }
                            }
                        }
                    },
                }
            }
            proof {
                assert(over == !was.after_play(p0).0);
                assert(freed_views(freed@) =~= was.freed((done + 1) as nat));
                assert(fire_views(fires@) =~= before + was.play_fires((done + 1) as nat));
            }
            if over {
                self.sounding.remove(i);
                assert(plays_of(self.sounding@) =~= here.remove(i as int));
                assert(plays_of(self.sounding@) =~= kept + was.sounding.skip(done + 1));
            } else {
                assert(plays_of(self.sounding@) =~= kept.push(p0) + was.sounding.skip(done + 1));
                i = i + 1;
            }
            proof {
                done = done + 1;
                assert(self@ =~= State { sounding: plays_of(self.sounding@), ..was });
            }
        }
        proof {
            assert(done == was.sounding.len());
            assert(plays_of(self.sounding@) =~= was.kept_plays(was.sounding.len()));
        }
    }

    /// Takes out of the line whoever's turn it is.
    fn split_line(&mut self) -> (turn: Vec<Waiting>)
        ensures
            final(self)@ == (State {
                waiting: old(self)@.line(old(self)@.waiting.len()).stay,
                ..old(self)@
            }),
            turns_of(turn@) == old(self)@.line(old(self)@.waiting.len()).turn,
    {
        let ghost was = self@;
        let ghost mut done: int = 0;
        let mut turn: Vec<Waiting> = Vec::new();
        let mut i: usize = 0;
        assert(was.waiting.skip(0) =~= was.waiting);
        assert(Seq::<Turn>::empty() + was.waiting =~= was.waiting);
        assert(turns_of(turn@) =~= Seq::<Turn>::empty());
        while i < self.waiting.len()
            invariant
                0 <= done <= was.waiting.len(),
                i == was.line(done as nat).stay.len(),
                turns_of(self.waiting@) == was.line(done as nat).stay + was.waiting.skip(done),
                turns_of(turn@) == was.line(done as nat).turn,
                self@ == (State { waiting: turns_of(self.waiting@), ..was }),
            decreases was.waiting.len() - done,
        {
            let ghost here = turns_of(self.waiting@);
            let ghost line = was.line(done as nat);
            let ghost t0 = was.waiting[done];
            proof {
                assert(here.len() == i + (was.waiting.len() - done));
                assert(here[i as int] == was.waiting.skip(done)[0]);
                assert(here[i as int] == self.waiting@[i as int]@);
            }
            let stay = self.is_busy(self.waiting[i].root, &self.waiting[i].path) || has_turn(
                &turn,
                self.waiting[i].root,
                &self.waiting[i].path,
            );
            if stay {
                assert(turns_of(self.waiting@) =~= line.stay.push(t0) + was.waiting.skip(done + 1));
                i = i + 1;
            } else {
                let next = self.waiting.remove(i);
                assert(turns_of(self.waiting@) =~= here.remove(i as int));
                assert(turns_of(self.waiting@) =~= line.stay + was.waiting.skip(done + 1));
                let ghost before = turns_of(turn@);
                turn.push(next);
                assert(turns_of(turn@) =~= before.push(t0));
            }
            proof {
                done = done + 1;
                assert(self@ =~= State { waiting: turns_of(self.waiting@), ..was });
            }
        }
        proof {
            assert(done == was.waiting.len());
            assert(turns_of(self.waiting@) =~= was.line(was.waiting.len()).stay);
        }
        turn
    }

    fn take_turns(&mut self, turn: &Vec<Waiting>, freed: &Vec<(Root, Vec<usize>, Num)>)
        ensures
            final(self)@ == old(self)@.turns_taken(
                turns_of(turn@),
                freed_views(freed@),
                turn@.len(),
            ),
    {
        let ghost was = self@;
        let ghost all = turns_of(turn@);
        let mut i: usize = 0;
        while i < turn.len()
            invariant
                i <= turn.len(),
                all == turns_of(turn@),
                self@ == was.turns_taken(all, freed_views(freed@), i as nat),
            decreases turn.len() - i,
        {
            let t = &turn[i];
            assert(all[i as int] == t@);
            let at = when_freed(freed, t.root, &t.path).unwrap_or(self.time);
            self.start(t.root, &t.path, Some(t.asked.clone()), at);
            i = i + 1;
        }
    }

    fn fire(&mut self, fires: &Vec<(String, Num)>)
        ensures
            final(self)@ == old(self)@.fired(fire_views(fires@), fires@.len()),
    {
        let ghost was = self@;
        let ghost all = fire_views(fires@);
        let mut i: usize = 0;
        while i < fires.len()
            invariant
                i <= fires.len(),
                all == fire_views(fires@),
                self@ == was.fired(all, i as nat),
            decreases fires.len() - i,
        {
            assert(all[i as int] == (fires@[i as int].0@, fires@[i as int].1));
            self.trigger_at(fires[i].0.as_str(), fires[i].1);
            let ghost there = self@;
            let ghost name = fires@[i as int].0@;
            if self.events.len() == MAX_PENDING_EVENTS {
                self.events.remove(0);
                assert(event_names(self.events@) =~= there.events.drop_first());
            }
            let ghost kept = event_names(self.events@);
            self.events.push(Event::Trigger(fires[i].0.clone()));
            assert(event_names(self.events@) =~= kept.push(name));
            assert(self@ =~= there.reported(name));
            i = i + 1;
        }
    }

    /// One indivisible move of the clock, landing exactly on `to`.
    fn step(&mut self, to: Num)
        ensures
            final(self)@ == old(self)@.step(to),
    {
        proof {
            reveal(State::step);
            reveal(State::ended);
        }
        self.prepare(to);
        let ghost noted = self@;
        self.time = to;
        assert(self@ =~= State { time: to, ..noted });
        if self.show.is_none() {
            return ;
        }
        let ghost there = self@;
        // Each with the instant the thing that fired it finished, not the clock: that is what
        // the next link in a chain is timed from.
        let mut fires: Vec<(String, Num)> = Vec::new();
        let mut freed: Vec<(Root, Vec<usize>, Num)> = Vec::new();
        assert(fire_views(fires@) =~= Seq::<(Seq<char>, Num)>::empty());
        self.end_timelines(&mut fires);
        proof {
            lemma_plays_alone(there, self@, there.sounding.len());
            assert(fire_views(fires@) =~= timeline_fires(
                there.show->0,
                there.time,
                there.playing,
                there.playing.len(),
            ));
        }
        self.end_plays(&mut freed, &mut fires);
        let turn = self.split_line();
        self.take_turns(&turn, &freed);
        assert(self@ == there.ended(there.show->0));
        assert(fire_views(fires@) == there.fires(there.show->0));
        self.fire(&fires);
        self.follow_ducks();
    }

    /// Advance to the instant `to`, which is where the clock lands. Going backwards does
    /// nothing; landing where the clock already is runs a step without moving it.
    pub fn advance_to(&mut self, to: Num)
        ensures
            final(self)@ == old(self)@.advance_to(to),
    {
        if to.lt(self.time) {
            return ;
        }
        let ghost goal = self@.advanced(to, MAX_SUBSTEPS as nat);
        let mut left: usize = MAX_SUBSTEPS;
        // Each pass runs to the first thing that ends, so the pass after it starts exactly
        // where that one finished.
        while left > 0
            invariant
                goal == old(self)@.advance_to(to),
                goal == self@.advanced(to, left as nat),
            decreases left,
        {
            let next = self.next_change(to);
            self.step(next);
            if to.le(self.time) {
                return ;
            }
            left = left - 1;
        }
        // A show whose chain is all zero-length timelines would split a frame for ever; it
        // gets the rest of the frame in one piece.
        self.step(to);
    }

    /// Advance time by `dt` seconds: running timelines and sounds progress, looping ones wrap,
    /// finished ones stop and fire their `on_end` trigger, which is also reported through
    /// [`drain_events`](Engine::drain_events).
    pub fn advance_frame(&mut self, dt: Num)
        ensures
            final(self)@ == old(self)@.advance_to(sum_of(old(self)@.time, dt)),
    {
        self.advance_to(self.time.plus(dt));
    }

    /// Take the events raised since the last call, oldest first.
    pub fn drain_events(&mut self) -> (r: Vec<Event>)
        ensures
            event_names(r@) == old(self)@.events,
            final(self)@ == (State { events: Seq::empty(), ..old(self)@ }),
    {
        let mut out: Vec<Event> = Vec::new();
        out.append(&mut self.events);
        assert(event_names(out@) =~= old(self)@.events);
        assert(self@ =~= State { events: Seq::empty(), ..old(self)@ });
        out
    }

    /// Seconds advanced since the show loaded.
    pub fn time(&self) -> (r: Num)
        ensures
            r == self@.time,
    {
        self.time
    }
}

/// What becomes of the plays does not hang on the playheads.
proof fn lemma_plays_alone(a: State, b: State, n: nat)
    requires
        b == (State { playing: b.playing, ..a }),
    ensures
        a.kept_plays(n) == b.kept_plays(n),
        a.freed(n) == b.freed(n),
        a.play_fires(n) == b.play_fires(n),
    decreases n,
{
    if n > 0 && n <= a.sounding.len() {
        lemma_plays_alone(a, b, (n - 1) as nat);
        let play = a.sounding[n - 1];
        assert(a.after_play(play) == b.after_play(play));
    }
}

} // verus!
