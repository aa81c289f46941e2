//! Warnings about what a show says that will quietly do nothing.

use crate::color::{color_of, parse_color};
use crate::model::{Binding, Layer, LayerKind, Property, Show};
use crate::names::lookup;
use crate::num::{equal, num};
use crate::state::{texts, Engine, State};
use crate::text::{joined, quoted, quoted_text};
use crate::tree::{layer_nodes, node_views, nodes};
use crate::validate::{binding_head, binding_start, is_lamp, lamp};
use vstd::prelude::*;

verus! {

/// What is said of a binding.
pub open spec fn remark(layer: Layer, binding: Binding, what: Seq<char>) -> Seq<char> {
    binding_head(binding.property) + quoted_text(layer.name@) + " "@ + what
}

fn say(layer: &Layer, binding: &Binding, what: &str) -> (r: String)
    ensures
        r@ == remark(*layer, *binding, what@),
{
    let mut text = binding_start(binding.property);
    text.append(quoted(layer.name.as_str()).as_str());
    text.append(" ");
    text.append(what);
    text
}

/// Whether a property never holds a number.
pub open spec fn wordy(property: Property) -> bool {
    property == Property::Tint || property == Property::Font || property == Property::Video
        || property == Property::Sound
}

/// What a property takes, where it does not take just anything.
pub open spec fn wanted(property: Property) -> Seq<char> {
    if property == Property::Tint {
        "a color like \"#RRGGBB\""@
    } else {
        "one of the show's font styles"@
    }
}

fn wanted_by(property: Property) -> (r: &'static str)
    ensures
        r@ == wanted(property),
{
    if property == Property::Tint {
        "a color like \"#RRGGBB\""
    } else {
        "one of the show's font styles"
    }
}

/// What reads a value that cannot be used is told.
pub open spec fn unusable(name: Seq<char>, start: Seq<char>, property: Property) -> Seq<char> {
    "reads "@ + name + ", which "@ + start + ", not "@ + wanted(property)
        + "; values it cannot use leave the property alone"@
}

fn cannot_use(name: &str, start: &str, property: Property) -> (r: String)
    ensures
        r@ == unusable(name@, start@, property),
{
    let mut text = joined("reads ", name);
    text.append(", which ");
    text.append(start);
    text.append(", not ");
    text.append(wanted_by(property));
    text.append("; values it cannot use leave the property alone");
    text
}

/// Whether a property can use a text.
pub open spec fn usable(show: Show, property: Property, text: Seq<char>) -> bool {
    &&& property == Property::Tint ==> text.len() == 0 || color_of(text) is Some
    &&& property == Property::Font ==> lookup(show.fonts@, text) is Some
}

/// What is said of what a binding reads. A value the show animates is declared as much as a
/// variable is, and is always a number. With a map it is the mapped values that reach the
/// property, and a modelled tint reads a power level.
pub open spec fn source_remark(show: Show, binding: Binding) -> Option<Seq<char>> {
    let name = binding.variable@;
    let property = binding.property;
    match (lookup(show.variables@, name), lookup(show.values@, name)) {
        (None, Some(_)) => if binding.map is None && (property == Property::Tint || property
            == Property::Font) {
            Some(unusable("value "@ + quoted_text(name), "is a number"@, property))
        } else {
            None
        },
        (None, None) => Some(
            "reads variable "@ + quoted_text(name)
                + ", which the show does not declare; it does nothing until a host sets that variable"@,
        ),
        (Some(value), _) => if binding.map is None && !lamp(binding) && !usable(
            show,
            property,
            value.text(),
        ) {
            Some(
                unusable(
                    "variable "@ + quoted_text(name),
                    "starts at "@ + quoted_text(value.text()),
                    property,
                ),
            )
        } else {
            None
        },
    }
}

fn source_problem(show: &Show, binding: &Binding) -> (r: Option<String>)
    ensures
        match (r, source_remark(*show, *binding)) {
            (Some(a), Some(b)) => a@ == b,
            (None, None) => true,
            _ => false,
        },
{
    let name = binding.variable.as_str();
    let property = binding.property;
    match show.variables.get(name) {
        None => {
            if show.values.contains(name) {
                if binding.map.is_none() && (property == Property::Tint || property
                    == Property::Font) {
                    let what = joined("value ", quoted(name).as_str());
                    Some(cannot_use(what.as_str(), "is a number", property))
                } else {
                    None
                }
            } else {
                let mut text = joined("reads variable ", quoted(name).as_str());
                text.append(
                    ", which the show does not declare; it does nothing until a host sets that variable",
                );
                Some(text)
            }
        },
        Some(value) => {
            if binding.map.is_some() || is_lamp(binding) {
                return None;
            }
            let text = value.to_text();
            let fine: bool = match property {
                Property::Tint => text.as_str().unicode_len() == 0 || parse_color(
                    text.as_str(),
                ).is_some(),
                Property::Font => show.fonts.contains(text.as_str()),
                _ => true,
            };
            if fine {
                return None;
            }
            let what = joined("variable ", quoted(name).as_str());
            let start = joined("starts at ", quoted(text.as_str()).as_str());
            Some(cannot_use(what.as_str(), start.as_str(), property))
        },
    }
}

/// What is said of a binding that will quietly do nothing.
pub open spec fn binding_remarks(show: Show, layer: Layer, binding: Binding) -> Seq<Seq<char>> {
    (if binding.curve@.len() > 0 && wordy(binding.property) {
        seq![
            remark(
                layer,
                binding,
                "has a curve, which only bends a number; this property never holds one"@,
            ),
        ]
    } else {
        Seq::empty()
    }) + (if (binding.prefix@.len() > 0 || binding.suffix@.len() > 0) && binding.property
        != Property::Text {
        seq![
            remark(
                layer,
                binding,
                "has words round its value, which only a text binding shows"@,
            ),
        ]
    } else {
        Seq::empty()
    }) + (match source_remark(show, binding) {
        Some(what) => seq![remark(layer, binding, what)],
        None => Seq::empty(),
    })
}

fn push_said(out: &mut Vec<String>, text: String)
    ensures
        texts(final(out)@) == texts(old(out)@) + seq![text@],
{
    let ghost before = texts(out@);
    out.push(text);
    assert(texts(out@) =~= before + seq![text@]);
}

fn quiet_binding(show: &Show, layer: &Layer, binding: &Binding, out: &mut Vec<String>)
    ensures
        texts(final(out)@) == texts(old(out)@) + binding_remarks(*show, *layer, *binding),
{
    let ghost before = texts(out@);
    let property = binding.property;
    // A curve bends a number, and these properties never hold one.
    if binding.curve.len() > 0 && (property == Property::Tint || property == Property::Font
        || property == Property::Video || property == Property::Sound) {
        push_said(
            out,
            say(
                layer,
                binding,
                "has a curve, which only bends a number; this property never holds one",
            ),
        );
    }
    // Words only go round text; every other property holds a number or a name of its own.

    if (binding.prefix.as_str().unicode_len() > 0 || binding.suffix.as_str().unicode_len() > 0)
        && property != Property::Text {
        push_said(
            out,
            say(layer, binding, "has words round its value, which only a text binding shows"),
        );
    }
    if let Some(what) = source_problem(show, binding) {
        push_said(out, say(layer, binding, what.as_str()));
    }
    assert(texts(out@) =~= before + binding_remarks(*show, *layer, *binding));
}

/// What is said of the first `n` bindings of a layer.
pub open spec fn layer_remarks(show: Show, layer: Layer, n: nat) -> Seq<Seq<char>>
    decreases n,
{
    if n == 0 || n > layer.bindings@.len() {
        Seq::empty()
    } else {
        layer_remarks(show, layer, (n - 1) as nat) + binding_remarks(
            show,
            layer,
            layer.bindings@[n - 1],
        )
    }
}

/// What is said of the bindings of the first `n` of some nodes.
pub open spec fn node_remarks(show: Show, list: Seq<(Seq<usize>, Layer)>, n: nat) -> Seq<Seq<char>>
    decreases n,
{
    if n == 0 || n > list.len() {
        Seq::empty()
    } else {
        node_remarks(show, list, (n - 1) as nat) + layer_remarks(
            show,
            list[n - 1].1,
            list[n - 1].1.bindings@.len(),
        )
    }
}

pub open spec fn tree_remarks(show: Show, layers: Seq<Layer>) -> Seq<Seq<char>> {
    let list = nodes(layers, Seq::empty());
    node_remarks(show, list, list.len())
}

pub open spec fn scene_remarks(show: Show, n: nat) -> Seq<Seq<char>>
    decreases n,
{
    if n == 0 || n > show.scenes@.len() {
        Seq::empty()
    } else {
        scene_remarks(show, (n - 1) as nat) + tree_remarks(show, show.scenes@[n - 1].layers@)
    }
}

/// What is said of a show's bindings.
pub open spec fn show_remarks(show: Show) -> Seq<Seq<char>> {
    tree_remarks(show, show.layers@) + scene_remarks(show, show.scenes@.len())
}

fn quiet_tree(show: &Show, layers: &[Layer], out: &mut Vec<String>)
    ensures
        texts(final(out)@) == texts(old(out)@) + tree_remarks(*show, layers@),
{
    let list = layer_nodes(layers);
    let ghost all = nodes(layers@, Seq::empty());
    let ghost before = texts(out@);
    let mut i: usize = 0;
    assert(before + Seq::<Seq<char>>::empty() =~= before);
    while i < list.len()
        invariant
            i <= list.len(),
            node_views(list@) == all,
            texts(out@) == before + node_remarks(*show, all, i as nat),
        decreases list.len() - i,
    {
        let layer = list[i].layer;
        assert(all[i as int] == list@[i as int]@);
        let ghost here = texts(out@);
        let mut k: usize = 0;
        assert(here + Seq::<Seq<char>>::empty() =~= here);
        while k < layer.bindings.len()
            invariant
                k <= layer.bindings.len(),
                texts(out@) == here + layer_remarks(*show, *layer, k as nat),
            decreases layer.bindings.len() - k,
        {
            quiet_binding(show, layer, &layer.bindings[k], out);
            k = k + 1;
            assert(texts(out@) =~= here + layer_remarks(*show, *layer, k as nat));
        }
        i = i + 1;
        assert(texts(out@) =~= before + node_remarks(*show, all, i as nat));
    }
}

/// Warn about bindings that will quietly do nothing.
///
/// A bound value the engine cannot use leaves the property as it was, silently: the host may
/// send something usable later, and a frame is no place to complain. That is right at runtime
/// and useless while writing a show. What a show does state up front is which variables it
/// declares and what they start at, so that is what is checked.
pub fn quiet_bindings(show: &Show, out: &mut Vec<String>)
    ensures
        texts(final(out)@) == texts(old(out)@) + show_remarks(*show),
{
    let ghost before = texts(out@);
    quiet_tree(show, show.layers.as_slice(), out);
    let ghost own = texts(out@);
    let mut i: usize = 0;
    assert(own + Seq::<Seq<char>>::empty() =~= own);
    while i < show.scenes.len()
        invariant
            i <= show.scenes.len(),
            texts(out@) == own + scene_remarks(*show, i as nat),
        decreases show.scenes.len() - i,
    {
        quiet_tree(show, show.scenes[i].layers.as_slice(), out);
        i = i + 1;
        assert(texts(out@) =~= own + scene_remarks(*show, i as nat));
    }
    assert(texts(out@) =~= before + show_remarks(*show));
}

impl State {
    /// What is said of an image layer that asks for cells of artwork that has none: a sheet
    /// and its frames are for pixels.
    pub open spec fn artwork_remark(self, layer: Layer) -> Option<Seq<char>> {
        match layer.kind {
            LayerKind::Image { image, sheet, frame, .. } => if (sheet is Some || !equal(
                frame,
                num(0),
            )) && lookup(self.images, image@) is None && lookup(self.vectors, image@) is Some {
                Some(
                    "layer "@ + quoted_text(layer.name@)
                        + " asks for a cell of a sheet, which only pixels have; "@ + quoted_text(
                        image@,
                    ) + " is vector artwork"@,
                )
            } else {
                None
            },
            _ => None,
        }
    }

    /// What is said of the artwork of the first `n` of some nodes.
    pub open spec fn node_artwork(self, list: Seq<(Seq<usize>, Layer)>, n: nat) -> Seq<Seq<char>>
        decreases n,
    {
        if n == 0 || n > list.len() {
            Seq::empty()
        } else {
            self.node_artwork(list, (n - 1) as nat) + (match self.artwork_remark(list[n - 1].1) {
                Some(what) => seq![what],
                None => Seq::empty(),
            })
        }
    }

    pub open spec fn tree_artwork(self, layers: Seq<Layer>) -> Seq<Seq<char>> {
        let list = nodes(layers, Seq::empty());
        self.node_artwork(list, list.len())
    }

    pub open spec fn scene_artwork(self, show: Show, n: nat) -> Seq<Seq<char>>
        decreases n,
    {
        if n == 0 || n > show.scenes@.len() {
            Seq::empty()
        } else {
            self.scene_artwork(show, (n - 1) as nat) + self.tree_artwork(
                show.scenes@[n - 1].layers@,
            )
        }
    }

    /// What is said of a show's artwork, as far as it is registered.
    pub open spec fn artwork_remarks(self, show: Show) -> Seq<Seq<char>> {
        self.tree_artwork(show.layers@) + self.scene_artwork(show, show.scenes@.len())
    }
}

impl Engine {
    fn artwork_problem(&self, layer: &Layer) -> (r: Option<String>)
        ensures
            match (r, self@.artwork_remark(*layer)) {
                (Some(a), Some(b)) => a@ == b,
                (None, None) => true,
                _ => false,
            },
    {
        if let LayerKind::Image { image, sheet, frame, .. } = &layer.kind {
            if (sheet.is_some() || !frame.same(num(0))) && !self.images.contains(image.as_str())
                && self.vectors.contains(image.as_str()) {
                let mut text = joined("layer ", quoted(layer.name.as_str()).as_str());
                text.append(" asks for a cell of a sheet, which only pixels have; ");
                text.append(quoted(image.as_str()).as_str());
                text.append(" is vector artwork");
                return Some(text);
            }
        }
        None
    }

    fn celled_tree(&self, layers: &[Layer], out: &mut Vec<String>)
        ensures
            texts(final(out)@) == texts(old(out)@) + self@.tree_artwork(layers@),
    {
        let list = layer_nodes(layers);
        let ghost all = nodes(layers@, Seq::empty());
        let ghost before = texts(out@);
        let mut i: usize = 0;
        assert(before + Seq::<Seq<char>>::empty() =~= before);
        while i < list.len()
            invariant
                i <= list.len(),
                node_views(list@) == all,
                texts(out@) == before + self@.node_artwork(all, i as nat),
            decreases list.len() - i,
        {
            assert(all[i as int] == list@[i as int]@);
            if let Some(text) = self.artwork_problem(list[i].layer) {
                push_said(out, text);
            }
            i = i + 1;
            assert(texts(out@) =~= before + self@.node_artwork(all, i as nat));
        }
    }

    /// Warn about image layers that ask for sheet cells of vector artwork.
    pub(crate) fn celled_artwork(&self, show: &Show, out: &mut Vec<String>)
        ensures
            texts(final(out)@) == texts(old(out)@) + self@.artwork_remarks(*show),
    {
        let ghost before = texts(out@);
        self.celled_tree(show.layers.as_slice(), out);
        let ghost own = texts(out@);
        let mut i: usize = 0;
        assert(own + Seq::<Seq<char>>::empty() =~= own);
        while i < show.scenes.len()
            invariant
                i <= show.scenes.len(),
                texts(out@) == own + self@.scene_artwork(*show, i as nat),
            decreases show.scenes.len() - i,
        {
            self.celled_tree(show.scenes[i].layers.as_slice(), out);
            i = i + 1;
            assert(texts(out@) =~= own + self@.scene_artwork(*show, i as nat));
        }
        assert(texts(out@) =~= before + self@.artwork_remarks(*show));
    }
}

} // verus!
