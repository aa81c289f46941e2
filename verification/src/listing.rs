//! What a draw list holds, and in which order.

use crate::mix::{children_at, lemma_child, shown_along};
use crate::model::{Blend, Layer, LayerKind, Property, Shape, Show};
use crate::num::{clamp_of, num, product_of, Num};
use crate::shape::{Drawn, Item, Transform};
use crate::schedule::lemma_roots_fit;
use crate::state::State;
use crate::tree::{layer_in, rooted, Root};
use crate::walk::{closing, opening, Inherited};
use crate::waves::ONE;
use vstd::prelude::*;

verus! {

/// The opacities from the top of a tree down to a layer, multiplied, each time held between
/// nothing and one.
pub open spec fn opacity_along(s: State, show: Show, root: Root, path: Seq<usize>) -> Num
    decreases path.len(),
{
    if path.len() == 0 {
        num(ONE)
    } else {
        clamp_of(
            product_of(
                opacity_along(s, show, root, path.drop_last()),
                s.number(root, path, layer_in(show, root, path)->0, Property::Opacity),
            ),
            num(0),
            num(ONE),
        )
    }
}

/// The placements from the top of a tree down to a layer, the outermost one last.
pub open spec fn place_along(s: State, show: Show, root: Root, path: Seq<usize>) -> Transform
    decreases path.len(),
{
    if path.len() == 0 {
        Transform::unmoved()
    } else {
        place_along(s, show, root, path.drop_last()).behind(
            s.local(root, path, layer_in(show, root, path)->0),
        )
    }
}

/// Whether a layer, or a group it is in, may draw past the canvas.
pub open spec fn bleeds_along(show: Show, root: Root, path: Seq<usize>) -> bool
    decreases path.len(),
{
    path.len() > 0 && (layer_in(show, root, path)->0.overflow || bleeds_along(
        show,
        root,
        path.drop_last(),
    ))
}

/// What a layer is handed by the tree it is in.
pub open spec fn along(s: State, show: Show, root: Root, path: Seq<usize>) -> Inherited {
    Inherited {
        transform: place_along(s, show, root, path),
        opacity: opacity_along(s, show, root, path),
        overflow: bleeds_along(show, root, path),
    }
}

/// A list holds everything another one holds.
pub open spec fn holds_all(list: Seq<Item>, part: Seq<Item>) -> bool {
    forall|i: int| 0 <= i < part.len() ==> list.contains(#[trigger] part[i])
}

pub(crate) proof fn lemma_holds_joined(a: Seq<Item>, b: Seq<Item>, part: Seq<Item>)
    requires
        holds_all(a, part) || holds_all(b, part),
    ensures
        holds_all(a + b, part),
{
    assert forall|i: int| 0 <= i < part.len() implies (a + b).contains(#[trigger] part[i]) by {
        if holds_all(a, part) {
            let k = choose|k: int| 0 <= k < a.len() && a[k] == part[i];
            assert((a + b)[k] == part[i]);
        } else {
            let k = choose|k: int| 0 <= k < b.len() && b[k] == part[i];
            assert((a + b)[a.len() + k] == part[i]);
        }
    }
}

proof fn lemma_prefix_shown(s: State, show: Show, root: Root, path: Seq<usize>, n: nat)
    requires
        shown_along(s, show, root, path),
        n <= path.len(),
    ensures
        shown_along(s, show, root, path.take(n as int)),
        n > 0 ==> layer_in(show, root, path.take(n as int)) is Some,
    decreases path.len(),
{
    if n == path.len() {
        assert(path.take(n as int) =~= path);
    } else {
        assert(path.drop_last().take(n as int) =~= path.take(n as int));
        lemma_prefix_shown(s, show, root, path.drop_last(), n);
    }
}

/// What a layer of some siblings adds is among what they add together.
proof fn lemma_sibling_added(
    s: State,
    root: Root,
    siblings: Seq<Layer>,
    prefix: Seq<usize>,
    from: Inherited,
    i: int,
    n: nat,
    part: Seq<Item>,
)
    requires
        0 <= i < n <= siblings.len() <= usize::MAX,
        s.walked(root, siblings.take(n as int), prefix, from) is Ok,
        s.walked_layer(root, siblings[i], prefix.push(i as usize), from) matches Ok(own)
            ==> holds_all(own, part),
    ensures
        s.walked_layer(root, siblings[i], prefix.push(i as usize), from) is Ok,
        holds_all(s.walked(root, siblings.take(n as int), prefix, from)->Ok_0, part),
    decreases n,
{
    let some = siblings.take(n as int);
    let most = some.drop_last();
    assert(most =~= siblings.take(n as int - 1));
    assert(some.last() == siblings[n - 1]);
    let before = s.walked(root, most, prefix, from)->Ok_0;
    let last = s.walked_layer(root, some.last(), prefix.push((n - 1) as usize), from)->Ok_0;
    if i < n - 1 {
        lemma_sibling_added(s, root, siblings, prefix, from, i, (n - 1) as nat, part);
    }
    lemma_holds_joined(before, last, part);
}

/// Below a place of a tree everything is drawn that a layer further down adds.
proof fn lemma_drawn_below(s: State, show: Show, root: Root, path: Seq<usize>, n: nat)
    requires
        n < path.len(),
        shown_along(s, show, root, path),
        rooted(show, root) is Some,
        !(layer_in(show, root, path)->0.kind is Group),
        s.walked(
            root,
            children_at(show, root, path.take(n as int))->0,
            path.take(n as int),
            along(s, show, root, path.take(n as int)),
        ) is Ok,
    ensures
        s.leaf_items(root, path, layer_in(show, root, path)->0, along(s, show, root, path)) is Ok,
        holds_all(
            s.walked(
                root,
                children_at(show, root, path.take(n as int))->0,
                path.take(n as int),
                along(s, show, root, path.take(n as int)),
            )->Ok_0,
            s.leaf_items(
                root,
                path,
                layer_in(show, root, path)->0,
                along(s, show, root, path),
            )->Ok_0,
        ),
    decreases path.len() - n,
{
    let prefix = path.take(n as int);
    let here = path.take(n as int + 1);
    let step = path[n as int];
    assert(here =~= prefix.push(step));
    assert(here.drop_last() =~= prefix);
    lemma_prefix_shown(s, show, root, path, n);
    lemma_prefix_shown(s, show, root, path, n + 1);
    let layer = layer_in(show, root, here)->0;
    crate::mix::lemma_step_within(show, root, prefix, step);
    let siblings = children_at(show, root, prefix)->0;
    lemma_child(show, root, prefix, siblings, step);
    let from = along(s, show, root, prefix);
    let own = s.handed(root, here, layer, from);
    assert(own == along(s, show, root, here));
    lemma_siblings_fit(show, root, prefix);
    let leaf = layer_in(show, root, path)->0;
    assert(siblings.take(siblings.len() as int) =~= siblings);
    // Each layer before it went well, and so did this one.
    lemma_sibling_went_well(s, root, siblings, prefix, from, step as int, siblings.len());
    let added = s.walked_layer(root, layer, here, from)->Ok_0;
    if n + 1 == path.len() {
        assert(here =~= path);
        let part = s.leaf_items(root, path, leaf, along(s, show, root, path))->Ok_0;
        assert(added == part);
        assert forall|i: int| 0 <= i < part.len() implies added.contains(#[trigger] part[i]) by {}
        lemma_sibling_added(s, root, siblings, prefix, from, step as int, siblings.len(), part);
    } else {
        lemma_prefix_shown(s, show, root, path, n + 2);
        assert(path.take(n as int + 2) =~= here.push(path[n as int + 1]));
        crate::mix::lemma_step_within(show, root, here, path[n as int + 1]);
        assert(layer.nested().len() > 0);
        lemma_drawn_below(s, show, root, path, n + 1);
        let part = s.leaf_items(root, path, leaf, along(s, show, root, path))->Ok_0;
        if let LayerKind::Group { children, clip, .. } = layer.kind {
            let inner = s.walked(root, children@, here, own)->Ok_0;
            lemma_holds_joined(opening(own, layer, clip), inner, part);
            lemma_holds_joined(
                opening(own, layer, clip) + inner,
                closing(own, layer, clip),
                part,
            );
        }
        lemma_sibling_added(s, root, siblings, prefix, from, step as int, siblings.len(), part);
    }
}

proof fn lemma_sibling_went_well(
    s: State,
    root: Root,
    siblings: Seq<Layer>,
    prefix: Seq<usize>,
    from: Inherited,
    i: int,
    n: nat,
)
    requires
        0 <= i < n <= siblings.len() <= usize::MAX,
        s.walked(root, siblings.take(n as int), prefix, from) is Ok,
    ensures
        s.walked_layer(root, siblings[i], prefix.push(i as usize), from) is Ok,
    decreases n,
{
    let some = siblings.take(n as int);
    assert(some.drop_last() =~= siblings.take(n as int - 1));
    assert(some.last() == siblings[n - 1]);
    if i < n - 1 {
        lemma_sibling_went_well(s, root, siblings, prefix, from, i, (n - 1) as nat);
    }
}

proof fn lemma_siblings_fit(show: Show, root: Root, prefix: Seq<usize>)
    ensures
        children_at(show, root, prefix) matches Some(layers) ==> layers.len() <= usize::MAX,
{
    if prefix.len() == 0 {
        lemma_roots_fit(show, root);
    } else if let Some(layer) = layer_in(show, root, prefix) {
        if let LayerKind::Group { children, .. } = layer.kind {
            assert(children.len() == children@.len());
        }
    }
}

/// Every layer that shows is drawn: in the show's own layers and in the active scene's, what it
/// adds is in the draw list, placed by every group it is in, as faint as all of them together, and
/// past the canvas where one of them may.
pub proof fn lemma_layer_drawn(s: State, root: Root, path: Seq<usize>)
    requires
        s.draw_list() is Ok,
        s.shows(root),
        rooted(s.show->0, root) is Some,
        path.len() > 0,
        shown_along(s, s.show->0, root, path),
        !(layer_in(s.show->0, root, path)->0.kind is Group),
    ensures
        s.leaf_items(
            root,
            path,
            layer_in(s.show->0, root, path)->0,
            along(s, s.show->0, root, path),
        ) matches Ok(part) && holds_all(s.draw_list()->Ok_0, part),
{
    let show = s.show->0;
    let layers = rooted(show, root)->0;
    assert(path.take(0) =~= Seq::<usize>::empty());
    assert(along(s, show, root, path.take(0)) == Inherited::nothing());
    lemma_drawn_below(s, show, root, path, 0);
    let part = s.leaf_items(
        root,
        path,
        layer_in(show, root, path)->0,
        along(s, show, root, path),
    )->Ok_0;
    let own = s.walked(Root::Show, show.layers@, Seq::empty(), Inherited::nothing())->Ok_0;
    if let Some(scene) = s.active_scene {
        if let Some(more) = rooted(show, Root::Scene(scene)) {
            let added = s.walked(
                Root::Scene(scene),
                more,
                Seq::empty(),
                Inherited::nothing(),
            )->Ok_0;
            lemma_holds_joined(own, added, part);
        }
    }
}

/// A shape that shows is in the draw list, under its layer's name, as faint as its layer and every
/// group it is in together, and past the canvas where one of them may draw there.
pub proof fn lemma_shape_drawn(s: State, root: Root, path: Seq<usize>) -> (i: int)
    requires
        s.draw_list() is Ok,
        s.shows(root),
        rooted(s.show->0, root) is Some,
        path.len() > 0,
        shown_along(s, s.show->0, root, path),
        layer_in(s.show->0, root, path)->0.kind is Shape,
    ensures
        ({
            let layer = layer_in(s.show->0, root, path)->0;
            let item = s.draw_list()->Ok_0[i];
            &&& 0 <= i < s.draw_list()->Ok_0.len()
            &&& item.name == layer.name@
            &&& item.opacity == opacity_along(s, s.show->0, root, path)
            &&& item.overflow == bleeds_along(s.show->0, root, path)
            &&& item.blend == layer.blend
        }),
{
    reveal(State::leaf_items);
    let show = s.show->0;
    lemma_layer_drawn(s, root, path);
    let layer = layer_in(show, root, path)->0;
    let part = s.leaf_items(root, path, layer, along(s, show, root, path))->Ok_0;
    let list = s.draw_list()->Ok_0;
    assert(part.len() == 1);
    assert(list.contains(part[0]));
    choose|i: int| 0 <= i < list.len() && list[i] == part[0]
}

/// Layers are painted in the order they stand in: a layer only ever adds on top of what those
/// before it have added.
pub proof fn lemma_painted_in_order(
    s: State,
    root: Root,
    layers: Seq<Layer>,
    prefix: Seq<usize>,
    from: Inherited,
    n: nat,
)
    requires
        n <= layers.len(),
        s.walked(root, layers, prefix, from) is Ok,
    ensures
        s.walked(root, layers.take(n as int), prefix, from) matches Ok(under) && under.len()
            <= s.walked(root, layers, prefix, from)->Ok_0.len() && under == s.walked(
            root,
            layers,
            prefix,
            from,
        )->Ok_0.take(under.len() as int),
    decreases layers.len() - n,
{
    let all = s.walked(root, layers, prefix, from)->Ok_0;
    if n == layers.len() {
        assert(layers.take(n as int) =~= layers);
        assert(all.take(all.len() as int) =~= all);
    } else {
        lemma_painted_in_order(s, root, layers, prefix, from, n + 1);
        let more = layers.take(n as int + 1);
        assert(more.drop_last() =~= layers.take(n as int));
        let under = s.walked(root, layers.take(n as int), prefix, from)->Ok_0;
        let upto = s.walked(root, more, prefix, from)->Ok_0;
        assert(under =~= all.take(under.len() as int)) by {
            assert forall|i: int| 0 <= i < under.len() implies under[i] == all[i] by {
                assert(upto[i] == under[i]);
                assert(all.take(upto.len() as int)[i] == all[i]);
            }
        }
    }
}

/// The show's own layers lie behind the active scene.
pub proof fn lemma_scene_on_top(s: State)
    requires
        s.draw_list() is Ok,
    ensures
        ({
            let list = s.draw_list()->Ok_0;
            let own = s.walked(
                Root::Show,
                s.show->0.layers@,
                Seq::empty(),
                Inherited::nothing(),
            )->Ok_0;
            own.len() <= list.len() && own == list.take(own.len() as int)
        }),
{
    let own = s.walked(
        Root::Show,
        s.show->0.layers@,
        Seq::empty(),
        Inherited::nothing(),
    )->Ok_0;
    assert(own =~= s.draw_list()->Ok_0.take(own.len() as int));
}

/// What a group clips and blends is all of it: everything its layers add stands between where the
/// blend and the clip open and where they close.
pub proof fn lemma_group_encloses(
    s: State,
    root: Root,
    layer: Layer,
    path: Seq<usize>,
    from: Inherited,
)
    requires
        s.visible(root, path, layer),
        layer.kind is Group,
        s.walked_layer(root, layer, path, from) is Ok,
    ensures
        ({
            let all = s.walked_layer(root, layer, path, from)->Ok_0;
            let inner = s.walked(
                root,
                layer.nested(),
                path,
                s.handed(root, path, layer, from),
            )->Ok_0;
            let blended = layer.blend != Blend::Normal;
            let clipped = layer.kind->clip is Some;
            let before: int = (if blended {
                1int
            } else {
                0
            }) + (if clipped {
                1int
            } else {
                0
            });
            &&& all.len() == inner.len() + 2 * before
            &&& all.subrange(before, before + inner.len()) == inner
            &&& blended ==> all[0].shape == (Drawn::BlendBegin { blend: layer.blend })
                && all.last().shape == Drawn::BlendEnd
            &&& clipped ==> all[before - 1].shape is ClipBegin && all[before
                + inner.len()].shape == Drawn::ClipEnd
        }),
{
    let all = s.walked_layer(root, layer, path, from)->Ok_0;
    let own = s.handed(root, path, layer, from);
    if let LayerKind::Group { children, clip, .. } = layer.kind {
        let inner = s.walked(root, children@, path, own)->Ok_0;
        let before = opening(own, layer, clip).len() as int;
        assert(all.subrange(before, before + inner.len()) =~= inner);
    }
}

} // verus!
