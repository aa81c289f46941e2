//! Finding layers: every layer of a show stands at a path in one of its trees.

use crate::model::{Layer, LayerKind, Show};
use vstd::prelude::*;

verus! {

/// Which layer tree a layer path is rooted in.
#[derive(Clone, Copy, Debug, PartialEq, Eq, Structural)]
pub enum Root {
    /// The show's own, always present layers.
    Show,
    /// The layers of the scene at this index.
    Scene(usize),
}

/// The layers of a tree.
pub open spec fn rooted(show: Show, root: Root) -> Option<Seq<Layer>> {
    match root {
        Root::Show => Some(show.layers@),
        Root::Scene(i) => if i < show.scenes@.len() {
            Some(show.scenes@[i as int].layers@)
        } else {
            None
        },
    }
}

/// The layer at a path below some layers.
pub open spec fn layer_under(layers: Seq<Layer>, path: Seq<usize>) -> Option<Layer>
    decreases path.len(),
{
    if path.len() == 0 || path[0] as int >= layers.len() {
        None
    } else {
        let layer = layers[path[0] as int];
        if path.len() == 1 {
            Some(layer)
        } else {
            layer_under(layer.nested(), path.drop_first())
        }
    }
}

/// The layer at a path of a show.
pub open spec fn layer_in(show: Show, root: Root, path: Seq<usize>) -> Option<Layer> {
    match rooted(show, root) {
        Some(layers) => layer_under(layers, path),
        None => None,
    }
}

/// The layers of a tree.
pub fn root_layers(show: &Show, root: Root) -> (r: Option<&[Layer]>)
    ensures
        match r {
            Some(layers) => rooted(*show, root) == Some(layers@),
            None => rooted(*show, root) is None,
        },
{
    match root {
        Root::Show => Some(show.layers.as_slice()),
        Root::Scene(i) => {
            if i < show.scenes.len() {
                Some(show.scenes[i].layers.as_slice())
            } else {
                None
            }
        },
    }
}

/// The layer at a path below some layers.
pub fn layer_at<'a>(layers: &'a [Layer], path: &[usize]) -> (r: Option<&'a Layer>)
    ensures
        match r {
            Some(layer) => layer_under(layers@, path@) == Some(*layer),
            None => layer_under(layers@, path@) is None,
        },
{
    let mut here: &'a [Layer] = layers;
    let mut i: usize = 0;
    assert(path@.skip(0) =~= path@);
    while i < path.len()
        invariant
            i <= path.len(),
            layer_under(layers@, path@) == layer_under(here@, path@.skip(i as int)),
        decreases path.len() - i,
    {
        assert(path@.skip(i as int)[0] == path@[i as int]);
        assert(path@.skip(i as int).drop_first() =~= path@.skip(i as int + 1));
        let at: usize = path[i];
        if at >= here.len() {
            return None;
        }
        let layer = &here[at];
        if i + 1 == path.len() {
            return Some(layer);
        }
        here = layer.children();
        i = i + 1;
    }
    None
}

/// The layer at a path of a show.
pub fn find_layer<'a>(show: &'a Show, root: Root, path: &[usize]) -> (r: Option<&'a Layer>)
    ensures
        match r {
            Some(layer) => layer_in(*show, root, path@) == Some(*layer),
            None => layer_in(*show, root, path@) is None,
        },
{
    match root_layers(show, root) {
        Some(layers) => layer_at(layers, path),
        None => None,
    }
}

/// Every layer of some layers with its path, each one before the layers nested in it.
pub open spec fn nodes(layers: Seq<Layer>, prefix: Seq<usize>) -> Seq<(Seq<usize>, Layer)>
    decreases layers,
{
    if layers.len() == 0 {
        Seq::empty()
    } else {
        let path = prefix.push((layers.len() - 1) as usize);
        nodes(layers.drop_last(), prefix) + nodes_of(layers.last(), path)
    }
}

/// A layer with its path, and every layer nested in it.
pub open spec fn nodes_of(layer: Layer, path: Seq<usize>) -> Seq<(Seq<usize>, Layer)>
    decreases layer,
{
    seq![(path, layer)] + match layer.kind {
        LayerKind::Group { children, .. } => nodes(children@, path),
        _ => Seq::empty(),
    }
}

/// A layer and where it stands.
#[derive(Debug)]
pub struct Node<'a> {
    pub path: Vec<usize>,
    pub layer: &'a Layer,
}

impl<'a> View for Node<'a> {
    type V = (Seq<usize>, Layer);

    open spec fn view(&self) -> (Seq<usize>, Layer) {
        (self.path@, *self.layer)
    }
}

/// What a list of nodes holds.
pub open spec fn node_views(list: Seq<Node<'_>>) -> Seq<(Seq<usize>, Layer)> {
    list.map_values(|n: Node<'_>| n@)
}

pub(crate) fn copy_path(path: &Vec<usize>) -> (r: Vec<usize>)
    ensures
        r@ == path@,
{
    let mut out: Vec<usize> = Vec::new();
    let mut i: usize = 0;
    while i < path.len()
        invariant
            i <= path.len(),
            out@ == path@.take(i as int),
        decreases path.len() - i,
    {
        out.push(path[i]);
        i = i + 1;
        assert(out@ =~= path@.take(i as int));
    }
    assert(out@ =~= path@);
    out
}

fn collect_nodes<'a>(layers: &'a [Layer], path: &mut Vec<usize>, out: &mut Vec<Node<'a>>)
    ensures
        final(path)@ == old(path)@,
        node_views(final(out)@) == node_views(old(out)@) + nodes(layers@, old(path)@),
    decreases layers@,
{
    let ghost before = node_views(out@);
    let ghost prefix = path@;
    let mut i: usize = 0;
    assert(layers@.take(0) =~= Seq::<Layer>::empty());
    assert(before + nodes(layers@.take(0), prefix) =~= before);
    while i < layers.len()
        invariant
            i <= layers.len(),
            path@ == prefix,
            node_views(out@) == before + nodes(layers@.take(i as int), prefix),
        decreases layers.len() - i,
    {
        let layer = &layers[i];
        path.push(i);
        let ghost here = node_views(out@);
        out.push(Node { path: copy_path(path), layer });
        assert(node_views(out@) =~= here.push((path@, *layer)));
        let ghost after = node_views(out@);
        if let LayerKind::Group { children, .. } = &layer.kind {
            collect_nodes(children.as_slice(), path, out);
        }
        proof {
            let upto = layers@.take(i as int + 1);
            assert(upto.drop_last() =~= layers@.take(i as int));
            assert(upto.last() == *layer);
            assert(nodes(Seq::<Layer>::empty(), path@) =~= Seq::<(Seq<usize>, Layer)>::empty());
            assert(nodes_of(*layer, path@) =~= seq![(path@, *layer)] + nodes(
                layer.nested(),
                path@,
            ));
            assert(node_views(out@) =~= before + nodes(upto, prefix));
        }
        path.pop();
        assert(path@ =~= prefix);
        i = i + 1;
    }
    assert(layers@.take(i as int) =~= layers@);
}

/// Every layer of some layers with its path, each one before the layers nested in it.
pub fn layer_nodes<'a>(layers: &'a [Layer]) -> (r: Vec<Node<'a>>)
    ensures
        node_views(r@) == nodes(layers@, Seq::empty()),
{
    let mut out: Vec<Node<'a>> = Vec::new();
    let mut path: Vec<usize> = Vec::new();
    collect_nodes(layers, &mut path, &mut out);
    assert(node_views(Seq::<Node<'a>>::empty()) =~= Seq::<(Seq<usize>, Layer)>::empty());
    assert(node_views(out@) =~= nodes(layers@, Seq::empty()));
    out
}

/// The path of a node leads to its layer.
pub proof fn lemma_node_found(layers: Seq<Layer>, prefix: Seq<usize>, k: int)
    requires
        0 <= k < nodes(layers, prefix).len(),
        layers.len() <= usize::MAX,
    ensures
        ({
            let (path, layer) = nodes(layers, prefix)[k];
            &&& path.len() > prefix.len()
            &&& path.take(prefix.len() as int) == prefix
            &&& layer_under(layers, path.skip(prefix.len() as int)) == Some(layer)
        }),
    decreases layers,
{
    let n = (layers.len() - 1) as usize;
    let at = prefix.push(n);
    let early = nodes(layers.drop_last(), prefix);
    let (path, layer) = nodes(layers, prefix)[k];
    if k < early.len() {
        lemma_node_found(layers.drop_last(), prefix, k);
        let rest = path.skip(prefix.len() as int);
        assert(early[k] == (path, layer));
        assert(layer_under(layers.drop_last(), rest) == Some(layer));
        assert(rest.len() > 0);
        assert(layers.drop_last()[rest[0] as int] == layers[rest[0] as int]);
    } else {
        let own = nodes_of(layers.last(), at);
        assert((path, layer) == own[k - early.len()]);
        if k == early.len() {
            assert(path == at);
            assert(path.take(prefix.len() as int) =~= prefix);
            let rest = path.skip(prefix.len() as int);
            assert(rest =~= seq![n]);
        } else {
            assert(layers.last().kind is Group);
            match layers.last().kind {
                LayerKind::Group { children, .. } => {
                    assert(children.len() == children@.len());
                },
                _ => {},
            }
            let kids = layers.last().nested();
            lemma_node_found(kids, at, k - early.len() - 1);
            assert((path, layer) == nodes(kids, at)[k - early.len() - 1]);
            let rest = path.skip(prefix.len() as int);
            assert(path.take(prefix.len() as int) =~= path.take(at.len() as int).take(
                prefix.len() as int,
            ));
            assert(prefix =~= at.take(prefix.len() as int));
            assert(rest[0] == path.take(at.len() as int)[prefix.len() as int]);
            assert(rest.drop_first() =~= path.skip(at.len() as int));
        }
    }
}

proof fn lemma_node_of_layer(layers: Seq<Layer>, prefix: Seq<usize>, i: int, j: int)
    requires
        0 <= i < layers.len() <= usize::MAX,
        0 <= j < nodes_of(layers[i], prefix.push(i as usize)).len(),
    ensures
        nodes(layers, prefix).contains(nodes_of(layers[i], prefix.push(i as usize))[j]),
    decreases layers.len(),
{
    let n = layers.len() - 1;
    let early = nodes(layers.drop_last(), prefix);
    let own = nodes_of(layers.last(), prefix.push(n as usize));
    let all = nodes(layers, prefix);
    assert(all == early + own);
    if i == n {
        assert(all[early.len() + j] == own[j]);
    } else {
        let node = nodes_of(layers[i], prefix.push(i as usize))[j];
        assert(layers.drop_last()[i] == layers[i]);
        lemma_node_of_layer(layers.drop_last(), prefix, i, j);
        let k = choose|k: int| 0 <= k < early.len() && #[trigger] early[k] == node;
        assert(all[k] == node);
    }
}

/// A layer that a path leads to is among the nodes.
pub proof fn lemma_found_is_node(layers: Seq<Layer>, prefix: Seq<usize>, path: Seq<usize>)
    requires
        layers.len() <= usize::MAX,
        layer_under(layers, path) is Some,
    ensures
        nodes(layers, prefix).contains((prefix + path, layer_under(layers, path)->0)),
    decreases path.len(),
{
    let i = path[0] as int;
    let layer = layers[i];
    let at = prefix.push(path[0]);
    let own = nodes_of(layer, at);
    assert(own[0] == (at, layer));
    let rest = path.drop_first();
    if rest.len() == 0 {
        assert(prefix + path =~= at);
        lemma_node_of_layer(layers, prefix, i, 0);
    } else {
        let kids = layer.nested();
        match layer.kind {
            LayerKind::Group { children, .. } => {
                assert(children.len() == children@.len());
            },
            _ => {},
        }
        lemma_found_is_node(kids, at, rest);
        let node = (at + rest, layer_under(kids, rest)->0);
        let below = nodes(kids, at);
        let k = choose|k: int| 0 <= k < below.len() && #[trigger] below[k] == node;
        assert(own[k + 1] == node);
        lemma_node_of_layer(layers, prefix, i, k + 1);
        assert(at + rest =~= prefix + path);
    }
}

} // verus!
