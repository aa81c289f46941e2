//! What is watched of each layer of a tree.

use crate::hear::{frame_name, position_of, Watched};
use crate::mix::{children_at, lemma_child, lemma_shown_prefix, lemma_step_within, shown_along};
use crate::model::{Layer, LayerKind, Show};
use crate::names::lookup;
use crate::num::{less, num};
use crate::schedule::lemma_roots_fit;
use crate::state::{Play, State};
use crate::tree::{layer_in, rooted, Root};
use vstd::prelude::*;

verus! {

/// A clip is on when a video layer plays it, its length is known, and its delay is over.
pub open spec fn is_on(s: State, layer: Layer, play: Play) -> bool {
    &&& layer.kind is Video
    &&& lookup(s.videos, play.playing) is Some
    &&& !less(s.since(play, layer.kind.playhead()->0), num(0))
}

/// What is watched is a play of the video layer at a path: under its id, the clip it plays, as far
/// into it as the play is, in the frame that belongs to the layer.
pub open spec fn shows_play(
    root: Root,
    path: Seq<usize>,
    s: State,
    layer: Layer,
    play: Play,
    w: Watched,
) -> bool {
    let media = layer.kind.playhead()->0;
    &&& is_on(s, layer, play)
    &&& play.on(root, path)
    &&& w.id == play.id && w.video == play.playing && w.layer == layer.name@
    &&& w.frame == frame_name(root, path) && w.looping == media.looping
    &&& w.position == position_of(
        media,
        s.since(play, media),
        lookup(s.videos, play.playing)->0.duration,
    )
}

/// Something watched belongs to a layer that shows.
pub open spec fn watch_of(s: State, show: Show, root: Root, path: Seq<usize>, w: Watched) -> bool {
    match layer_in(show, root, path) {
        Some(layer) => shown_along(s, show, root, path) && exists|k: int|
            0 <= k < s.sounding.len() && shows_play(
                root,
                path,
                s,
                layer,
                #[trigger] s.sounding[k],
                w,
            ),
        None => false,
    }
}

proof fn lemma_plays_watched(s: State, root: Root, path: Seq<usize>, layer: Layer, n: nat, i: int)
    requires
        layer.kind is Video,
        n <= s.sounding.len(),
        0 <= i < s.watched_plays(root, path, layer, layer.kind.playhead()->0, n).len(),
    ensures
        exists|k: int|
            0 <= k < s.sounding.len() && shows_play(
                root,
                path,
                s,
                layer,
                #[trigger] s.sounding[k],
                s.watched_plays(root, path, layer, layer.kind.playhead()->0, n)[i],
            ),
    decreases n,
{
    let media = layer.kind.playhead()->0;
    let all = s.watched_plays(root, path, layer, media, n);
    let before = s.watched_plays(root, path, layer, media, (n - 1) as nat);
    if i < before.len() {
        lemma_plays_watched(s, root, path, layer, (n - 1) as nat, i);
        assert(all[i] == before[i]);
    } else {
        assert(shows_play(root, path, s, layer, s.sounding[n - 1], all[i]));
    }
}

proof fn lemma_watched(
    s: State,
    show: Show,
    root: Root,
    layers: Seq<Layer>,
    all: Seq<Layer>,
    prefix: Seq<usize>,
    i: int,
)
    requires
        children_at(show, root, prefix) == Some(all),
        layers.len() <= all.len() <= usize::MAX,
        layers == all.take(layers.len() as int),
        shown_along(s, show, root, prefix),
        0 <= i < s.watched(root, layers, prefix).len(),
    ensures
        exists|path: Seq<usize>| #[trigger]
            watch_of(s, show, root, path, s.watched(root, layers, prefix)[i]),
    decreases layers,
{
    if layers.len() > 0 {
        let n = (layers.len() - 1) as usize;
        let path = prefix.push(n);
        let most = layers.drop_last();
        let before = s.watched(root, most, prefix);
        let whole = s.watched(root, layers, prefix);
        assert(most =~= all.take(most.len() as int));
        assert(layers.last() == all[n as int]);
        lemma_child(show, root, prefix, all, n);
        assert(path.drop_last() =~= prefix);
        if i < before.len() {
            lemma_watched(s, show, root, most, all, prefix, i);
            let p = choose|p: Seq<usize>| #[trigger] watch_of(s, show, root, p, before[i]);
            assert(watch_of(s, show, root, p, whole[i]));
        } else {
            let j = i - before.len();
            lemma_watched_layer(s, show, root, layers.last(), path, j);
            let own = s.watched_layer(root, layers.last(), path);
            let p = choose|p: Seq<usize>| #[trigger] watch_of(s, show, root, p, own[j]);
            assert(watch_of(s, show, root, p, whole[i]));
        }
    }
}

proof fn lemma_watched_layer(
    s: State,
    show: Show,
    root: Root,
    layer: Layer,
    path: Seq<usize>,
    i: int,
)
    requires
        path.len() > 0,
        layer_in(show, root, path) == Some(layer),
        shown_along(s, show, root, path.drop_last()),
        0 <= i < s.watched_layer(root, layer, path).len(),
    ensures
        exists|p: Seq<usize>| #[trigger]
            watch_of(s, show, root, p, s.watched_layer(root, layer, path)[i]),
    decreases layer,
{
    let all = s.watched_layer(root, layer, path);
    assert(shown_along(s, show, root, path));
    match layer.kind {
        LayerKind::Group { children, .. } => {
            assert(children@.take(children@.len() as int) =~= children@);
            assert(children.len() == children@.len());
            lemma_watched(s, show, root, children@, children@, path, i);
        },
        LayerKind::Video { .. } => {
            lemma_plays_watched(s, root, path, layer, s.sounding.len(), i);
            assert(watch_of(s, show, root, path, all[i]));
        },
        _ => {},
    }
}

/// Everything watched is a play of a video layer that shows with all it is nested in, in the
/// show's own layers or the active scene's.
pub proof fn lemma_watched_shows(s: State, i: int)
    requires
        s.watching() matches Some(all) && 0 <= i < all.len(),
    ensures
        exists|root: Root, path: Seq<usize>|
            s.shows(root) && #[trigger] watch_of(s, s.show->0, root, path, s.watching()->0[i]),
{
    let show = s.show->0;
    let all = s.watching()->0;
    let own = s.watched(Root::Show, show.layers@, Seq::empty());
    let root = if i < own.len() {
        Root::Show
    } else {
        Root::Scene(s.active_scene->0)
    };
    let j = if i < own.len() {
        i
    } else {
        i - own.len()
    };
    let layers = rooted(show, root)->0;
    assert(layers.take(layers.len() as int) =~= layers);
    lemma_roots_fit(show, root);
    lemma_watched(s, show, root, layers, layers, Seq::empty(), j);
    let mine = s.watched(root, layers, Seq::empty());
    assert(all[i] == mine[j]);
    let path = choose|path: Seq<usize>| #[trigger] watch_of(s, show, root, path, mine[j]);
    assert(s.shows(root) && watch_of(s, show, root, path, all[i]));
}

/// A play is among what is watched.
pub open spec fn is_watched(list: Seq<Watched>, play: Play) -> bool {
    exists|i: int|
        0 <= i < list.len() && (#[trigger] list[i]).id == play.id && list[i].video == play.playing
}

proof fn lemma_watched_joined(a: Seq<Watched>, b: Seq<Watched>, play: Play)
    requires
        is_watched(a, play) || is_watched(b, play),
    ensures
        is_watched(a + b, play),
{
    if is_watched(a, play) {
        let i = choose|i: int|
            0 <= i < a.len() && (#[trigger] a[i]).id == play.id && a[i].video == play.playing;
        assert((a + b)[i] == a[i]);
    } else {
        let i = choose|i: int|
            0 <= i < b.len() && (#[trigger] b[i]).id == play.id && b[i].video == play.playing;
        assert((a + b)[a.len() + i] == b[i]);
    }
}

proof fn lemma_own_watched(s: State, root: Root, path: Seq<usize>, layer: Layer, n: nat, k: int)
    requires
        0 <= k < n <= s.sounding.len(),
        s.sounding[k].on(root, path),
        is_on(s, layer, s.sounding[k]),
    ensures
        is_watched(
            s.watched_plays(root, path, layer, layer.kind.playhead()->0, n),
            s.sounding[k],
        ),
    decreases n,
{
    let media = layer.kind.playhead()->0;
    let all = s.watched_plays(root, path, layer, media, n);
    let before = s.watched_plays(root, path, layer, media, (n - 1) as nat);
    if k == n - 1 {
        assert(all[before.len() as int].id == s.sounding[k].id);
    } else {
        lemma_own_watched(s, root, path, layer, (n - 1) as nat, k);
        lemma_watched_joined(before, all.skip(before.len() as int), s.sounding[k]);
        assert(all =~= before + all.skip(before.len() as int));
    }
}

proof fn lemma_among_siblings(
    s: State,
    root: Root,
    siblings: Seq<Layer>,
    prefix: Seq<usize>,
    i: int,
    n: nat,
    play: Play,
)
    requires
        0 <= i < n <= siblings.len(),
        i <= usize::MAX,
        is_watched(s.watched_layer(root, siblings[i], prefix.push(i as usize)), play),
    ensures
        is_watched(s.watched(root, siblings.take(n as int), prefix), play),
    decreases n,
{
    let some = siblings.take(n as int);
    assert(some.drop_last() =~= siblings.take(n as int - 1));
    let before = s.watched(root, some.drop_last(), prefix);
    let last = s.watched_layer(root, some.last(), prefix.push((n - 1) as usize));
    if i < n - 1 {
        lemma_among_siblings(s, root, siblings, prefix, i, (n - 1) as nat, play);
    }
    lemma_watched_joined(before, last, play);
}

/// A play is watched below every place on the way to its layer.
proof fn lemma_climb(s: State, show: Show, root: Root, path: Seq<usize>, n: nat, k: int)
    requires
        n < path.len(),
        shown_along(s, show, root, path),
        rooted(show, root) is Some,
        0 <= k < s.sounding.len() && s.sounding[k].on(root, path),
        layer_in(show, root, path) matches Some(layer) && is_on(s, layer, s.sounding[k]),
    ensures
        is_watched(
            s.watched(
                root,
                children_at(show, root, path.take(n as int))->0,
                path.take(n as int),
            ),
            s.sounding[k],
        ),
    decreases path.len() - n,
{
    let play = s.sounding[k];
    let prefix = path.take(n as int);
    let here = path.take(n as int + 1);
    let step = path[n as int];
    assert(here =~= prefix.push(step));
    assert(here.drop_last() =~= prefix);
    lemma_shown_prefix(s, show, root, path, n);
    lemma_shown_prefix(s, show, root, path, n + 1);
    let layer = layer_in(show, root, here)->0;
    let siblings = children_at(show, root, prefix)->0;
    lemma_step_within(show, root, prefix, step);
    lemma_child(show, root, prefix, siblings, step);
    let own = s.watched_layer(root, layer, here);
    if n + 1 == path.len() {
        assert(here =~= path);
        lemma_own_watched(s, root, path, layer, s.sounding.len(), k);
    } else {
        lemma_climb(s, show, root, path, n + 1, k);
        lemma_shown_prefix(s, show, root, path, n + 2);
        assert(path.take(n as int + 2) =~= here.push(path[n as int + 1]));
        lemma_step_within(show, root, here, path[n as int + 1]);
        assert(layer.nested().len() > 0);
        assert(own == s.watched(root, children_at(show, root, here)->0, here));
    }
    lemma_among_siblings(s, root, siblings, prefix, step as int, siblings.len(), play);
    assert(siblings.take(siblings.len() as int) =~= siblings);
}

/// Every clip that is on, of a layer that shows with all it is nested in, is watched.
pub proof fn lemma_play_watched(s: State, root: Root, path: Seq<usize>, k: int)
    requires
        s.show is Some && s.shows(root),
        path.len() > 0,
        shown_along(s, s.show->0, root, path),
        rooted(s.show->0, root) is Some,
        0 <= k < s.sounding.len() && s.sounding[k].on(root, path),
        layer_in(s.show->0, root, path) matches Some(layer) && is_on(s, layer, s.sounding[k]),
    ensures
        is_watched(s.watching()->0, s.sounding[k]),
{
    let show = s.show->0;
    let layers = rooted(show, root)->0;
    lemma_climb(s, show, root, path, 0, k);
    assert(path.take(0) =~= Seq::<usize>::empty());
    let own = s.watched(Root::Show, show.layers@, Seq::empty());
    let mine = s.watched(root, layers, Seq::empty());
    if root == Root::Show {
        let all = s.watching()->0;
        let rest = all.skip(own.len() as int);
        lemma_watched_joined(own, rest, s.sounding[k]);
        assert(all =~= own + rest);
    } else {
        lemma_watched_joined(own, mine, s.sounding[k]);
    }
}

} // verus!
