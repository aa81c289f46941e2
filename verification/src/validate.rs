//! What a show has to meet beyond its shape: colors are colors, text layers use declared font
//! styles, only numeric properties are keyframed, and numbers are in range.

use crate::color::{color_of, parse_color};
use crate::debug::{debug, debug_text};
use crate::easing::Easing;
use crate::model::{
    either, Binding, DigitDisplay, Duck, Fill, FontStyle, Gradient, Key, Layer, LayerKind,
    MediaInfo, MediaKind, Output, OutputSet, Pass, Property, Reel, Retrigger, Scene, Show,
    ShowValue, Stop, Timeline, Track, Transition, ValueTimeline, When,
};
use crate::names::lookup;
use crate::num::{at_most, equal, less, num, Num};
use crate::output::{resolved_output, OutputColor};
use crate::shape::{color_from, color_or};
use crate::state::{Error, Problem};
use crate::text::{joined, owned, quoted, quoted_text};
use crate::tree::{layer_nodes, node_views, nodes};
use crate::value::{Held, Value};
use crate::waves::ONE;
use vstd::prelude::*;

verus! {

/// Whether an outcome is a problem exactly where one is due, and that one.
pub open spec fn says(found: Option<Error>, due: Option<Problem>) -> bool {
    match (found, due) {
        (Some(e), Some(problem)) => e@ == problem,
        (None, None) => true,
        _ => false,
    }
}

/// The complaint about something by its name.
pub open spec fn complaint(head: Seq<char>, name: Seq<char>, what: Seq<char>) -> Problem {
    Problem::InvalidShow(head + quoted_text(name) + " "@ + what)
}

fn complain(head: &str, name: &str, what: &str) -> (r: Error)
    ensures
        r@ == complaint(head@, name@, what@),
{
    let mut text = joined(head, quoted(name).as_str());
    text.append(" ");
    text.append(what);
    Error::InvalidShow(text)
}

/// The complaint that something may come to.
pub open spec fn complaint_if(head: Seq<char>, name: Seq<char>, what: Option<Seq<char>>) -> Option<
    Problem,
> {
    match what {
        Some(what) => Some(complaint(head, name, what)),
        None => None,
    }
}

fn complain_if(head: &str, name: &str, what: Option<&'static str>) -> (r: Option<Error>)
    ensures
        says(r, complaint_if(head@, name@, worded(what))),
{
    match what {
        Some(what) => Some(complain(head, name, what)),
        None => None,
    }
}

pub open spec fn worded(what: Option<&'static str>) -> Option<Seq<char>> {
    match what {
        Some(what) => Some(what@),
        None => None,
    }
}

/// Finite and at least zero.
pub open spec fn from_zero(n: Num) -> bool {
    n.finite() && !less(n, num(0))
}

fn is_from_zero(n: Num) -> (r: bool)
    ensures
        r == from_zero(n),
{
    n.is_finite() && !n.lt(num(0))
}

/// Finite and above zero.
pub open spec fn positive(n: Num) -> bool {
    n.finite() && less(num(0), n)
}

fn is_positive(n: Num) -> (r: bool)
    ensures
        r == positive(n),
{
    n.is_finite() && num(0).lt(n)
}

/// Whether there is a number here that fails a bound.
pub open spec fn not_positive(n: Option<Num>) -> bool {
    n is Some && !positive(n->0)
}

fn is_not_positive(n: Option<Num>) -> (r: bool)
    ensures
        r == not_positive(n),
{
    match n {
        Some(n) => !is_positive(n),
        None => false,
    }
}

pub open spec fn not_finite(n: Option<Num>) -> bool {
    n is Some && !n->0.finite()
}

fn is_not_finite(n: Option<Num>) -> (r: bool)
    ensures
        r == not_finite(n),
{
    match n {
        Some(n) => !n.is_finite(),
        None => false,
    }
}

pub open spec fn not_from_zero(n: Option<Num>) -> bool {
    n is Some && !from_zero(n->0)
}

fn is_not_from_zero(n: Option<Num>) -> (r: bool)
    ensures
        r == not_from_zero(n),
{
    match n {
        Some(n) => !is_from_zero(n),
        None => false,
    }
}

/// The name of a property.
pub open spec fn property_text(property: Property) -> Seq<char> {
    match property {
        Property::X => "X"@,
        Property::Y => "Y"@,
        Property::Opacity => "Opacity"@,
        Property::Scale => "Scale"@,
        Property::ScaleX => "ScaleX"@,
        Property::ScaleY => "ScaleY"@,
        Property::Rotation => "Rotation"@,
        Property::Text => "Text"@,
        Property::Font => "Font"@,
        Property::Video => "Video"@,
        Property::Sound => "Sound"@,
        Property::Frame => "Frame"@,
        Property::TileX => "TileX"@,
        Property::TileY => "TileY"@,
        Property::Gain => "Gain"@,
        Property::Visible => "Visible"@,
        Property::Tint => "Tint"@,
    }
}

fn property_name(property: Property) -> (r: &'static str)
    ensures
        r@ == property_text(property),
{
    match property {
        Property::X => "X",
        Property::Y => "Y",
        Property::Opacity => "Opacity",
        Property::Scale => "Scale",
        Property::ScaleX => "ScaleX",
        Property::ScaleY => "ScaleY",
        Property::Rotation => "Rotation",
        Property::Text => "Text",
        Property::Font => "Font",
        Property::Video => "Video",
        Property::Sound => "Sound",
        Property::Frame => "Frame",
        Property::TileX => "TileX",
        Property::TileY => "TileY",
        Property::Gain => "Gain",
        Property::Visible => "Visible",
        Property::Tint => "Tint",
    }
}

/// A value in its debug form.
pub open spec fn value_text(value: Held) -> Seq<char> {
    match value {
        Held::Number(n) => "Number("@ + debug_text(n) + ")"@,
        Held::Bool(b) => if b {
            "Bool(true)"@
        } else {
            "Bool(false)"@
        },
        Held::Text(text) => "Text("@ + quoted_text(text) + ")"@,
    }
}

fn value_name(value: &Value) -> (r: String)
    ensures
        r@ == value_text(value@),
{
    match value {
        Value::Number(n) => {
            let mut text = joined("Number(", debug(*n).as_str());
            text.append(")");
            text
        },
        Value::Bool(b) => {
            if *b {
                owned("Bool(true)")
            } else {
                owned("Bool(false)")
            }
        },
        Value::Text(t) => {
            let mut text = joined("Text(", quoted(t.as_str()).as_str());
            text.append(")");
            text
        },
    }
}

/// Whether a key lies before the one ahead of it.
pub open spec fn unsorted(keys: Seq<Key>) -> bool {
    exists|i: int| 0 <= i < keys.len() - 1 && less(#[trigger] keys[i + 1].t, keys[i].t)
}

fn is_unsorted(keys: &Vec<Key>) -> (r: bool)
    ensures
        r == unsorted(keys@),
{
    let mut i: usize = 1;
    while i < keys.len()
        invariant
            1 <= i,
            keys.len() > 0 ==> i <= keys.len(),
            forall|k: int| 0 <= k < i - 1 ==> !less(#[trigger] keys@[k + 1].t, keys@[k].t),
        decreases keys.len() - i,
    {
        if keys[i].t.lt(keys[i - 1].t) {
            assert(less(keys@[(i - 1) + 1].t, keys@[i - 1].t));
            return true;
        }
        i = i + 1;
    }
    false
}

/// What is wrong with a set of offset keys: they carry motion added on top of a move, so they
/// run forward from 0 and have to come back to where they started.
pub open spec fn offset_fault(offset: Seq<Key>) -> Option<Seq<char>> {
    if unsorted(offset) || exists|i: int|
        0 <= i < offset.len() && ((#[trigger] offset[i]).t.nan() || less(offset[i].t, num(0))) {
        Some("needs offset keys in time order, from 0 on"@)
    } else if offset.len() > 0 && (!equal(offset[0].v, num(0)) || !equal(
        offset.last().v,
        num(0),
    )) {
        Some("needs an offset that starts and ends at 0"@)
    } else {
        None
    }
}

/// What is wrong with a set of `offset` keys, if anything.
pub fn offset_problem(offset: &Vec<Key>) -> (r: Option<&'static str>)
    ensures
        worded(r) == offset_fault(offset@),
{
    if is_unsorted(offset) {
        return Some("needs offset keys in time order, from 0 on");
    }
    let mut i: usize = 0;
    while i < offset.len()
        invariant
            i <= offset.len(),
            forall|k: int|
                0 <= k < i ==> !(#[trigger] offset@[k]).t.nan() && !less(offset@[k].t, num(0)),
        decreases offset.len() - i,
    {
        if offset[i].t.is_nan() || offset[i].t.lt(num(0)) {
            assert(offset@[i as int].t.nan() || less(offset@[i as int].t, num(0)));
            return Some("needs offset keys in time order, from 0 on");
        }
        i = i + 1;
    }
    let n: usize = offset.len();
    if n > 0 && (!offset[0].v.same(num(0)) || !offset[n - 1].v.same(num(0))) {
        return Some("needs an offset that starts and ends at 0");
    }
    None
}

/// The first stop from `from` on whose color is none.
pub open spec fn bad_stop(stops: Seq<Stop>, from: int) -> Option<Seq<char>>
    decreases stops.len() - from,
{
    if from < 0 || from >= stops.len() {
        None
    } else if color_of(stops[from].color@) is None {
        Some(stops[from].color@)
    } else {
        bad_stop(stops, from + 1)
    }
}

/// What is wrong with a gradient.
pub open spec fn gradient_fault(gradient: Gradient) -> Option<Seq<char>> {
    let stops = gradient.colors();
    if stops.len() == 0 {
        Some("needs a stop"@)
    } else if exists|i: int| 0 <= i < stops.len() && !(#[trigger] stops[i]).at.finite() {
        Some("needs finite stop positions"@)
    } else if exists|i: int|
        0 <= i < stops.len() - 1 && less(#[trigger] stops[i + 1].at, stops[i].at) {
        Some("needs its stops in order"@)
    } else if gradient matches Gradient::Radial { radius, .. } && !positive(radius) {
        Some("needs a radius above 0"@)
    } else {
        match bad_stop(stops, 0) {
            Some(color) => Some("has a stop that is not a color: "@ + quoted_text(color)),
            None => None,
        }
    }
}

fn gradient_problem(gradient: &Gradient) -> (r: Option<String>)
    ensures
        match (r, gradient_fault(*gradient)) {
            (Some(a), Some(b)) => a@ == b,
            (None, None) => true,
            _ => false,
        },
{
    let stops = gradient.stops();
    let n: usize = stops.len();
    if n == 0 {
        return Some(owned("needs a stop"));
    }
    let mut finite: bool = true;
    let mut sorted: bool = true;
    let mut i: usize = 0;
    while i < n
        invariant
            i <= n == stops@.len(),
            finite == !(exists|k: int| 0 <= k < i && !(#[trigger] stops@[k]).at.finite()),
            sorted == !(exists|k: int|
                0 <= k < i - 1 && less(#[trigger] stops@[k + 1].at, stops@[k].at)),
        decreases n - i,
    {
        if !stops[i].at.is_finite() {
            assert(!stops@[i as int].at.finite());
            finite = false;
        }
        if i > 0 && stops[i].at.lt(stops[i - 1].at) {
            assert(less(stops@[(i - 1) + 1].at, stops@[i - 1].at));
            sorted = false;
        }
        i = i + 1;
    }
    if !finite {
        return Some(owned("needs finite stop positions"));
    }
    if !sorted {
        return Some(owned("needs its stops in order"));
    }
    if let Gradient::Radial { radius, .. } = gradient {
        if !is_positive(*radius) {
            return Some(owned("needs a radius above 0"));
        }
    }
    let mut k: usize = 0;
    while k < n
        invariant
            k <= n == stops@.len(),
            stops@ == gradient.colors(),
            gradient_fault(*gradient) == match bad_stop(stops@, 0) {
                Some(color) => Some("has a stop that is not a color: "@ + quoted_text(color)),
                None => None,
            },
            bad_stop(stops@, 0) == bad_stop(stops@, k as int),
        decreases n - k,
    {
        if parse_color(stops[k].color.as_str()).is_none() {
            return Some(
                joined(
                    "has a stop that is not a color: ",
                    quoted(stops[k].color.as_str()).as_str(),
                ),
            );
        }
        k = k + 1;
    }
    None
}

/// What is wrong with how a shape layer is painted.
pub open spec fn paint_problem(layer: Layer) -> Option<Problem> {
    match layer.kind {
        LayerKind::Shape { fill, stroke, .. } => either(
            match fill {
                Fill::Gradient(gradient) => complaint_if(
                    "the gradient of layer "@,
                    layer.name@,
                    gradient_fault(gradient),
                ),
                Fill::Color(_) => None,
            },
            match stroke {
                Some(stroke) => match color_or(stroke.color@) {
                    Err(problem) => Some(problem),
                    Ok(_) => if positive(stroke.width) {
                        None
                    } else {
                        Some(
                            complaint("layer "@, layer.name@, "needs a stroke width above 0"@),
                        )
                    },
                },
                None => None,
            },
        ),
        _ => None,
    }
}

fn check_paint(layer: &Layer) -> (r: Option<Error>)
    ensures
        says(r, paint_problem(*layer)),
{
    if let LayerKind::Shape { fill, stroke, .. } = &layer.kind {
        if let Fill::Gradient(gradient) = fill {
            if let Some(what) = gradient_problem(gradient) {
                return Some(
                    complain("the gradient of layer ", layer.name.as_str(), what.as_str()),
                );
            }
        }
        if let Some(stroke) = stroke {
            if let Err(e) = color_from(&stroke.color) {
                return Some(e);
            }
            if !is_positive(stroke.width) {
                return Some(
                    complain("layer ", layer.name.as_str(), "needs a stroke width above 0"),
                );
            }
        }
    }
    None
}

/// The font style a layer draws with.
pub open spec fn style_used(layer: Layer) -> Option<Seq<char>> {
    match layer.kind {
        LayerKind::Text { font, .. } => Some(font@),
        LayerKind::Digits { display, .. } => match display {
            DigitDisplay::Reel(reel) => match reel.font {
                Some(font) => Some(font@),
                None => None,
            },
            _ => None,
        },
        _ => None,
    }
}

/// What is wrong with the font style a layer draws with.
pub open spec fn style_problem(show: Show, layer: Layer) -> Option<Problem> {
    match style_used(layer) {
        Some(font) => if lookup(show.fonts@, font) is None {
            Some(
                complaint(
                    "layer "@,
                    layer.name@,
                    "uses undeclared font style "@ + quoted_text(font),
                ),
            )
        } else {
            None
        },
        None => None,
    }
}

fn check_style(show: &Show, layer: &Layer) -> (r: Option<Error>)
    ensures
        says(r, style_problem(*show, *layer)),
{
    let font: Option<&String> = match &layer.kind {
        LayerKind::Text { font, .. } => Some(font),
        LayerKind::Digits { display, .. } => match display {
            DigitDisplay::Reel(reel) => match &reel.font {
                Some(font) => Some(font),
                None => None,
            },
            _ => None,
        },
        _ => None,
    };
    if let Some(font) = font {
        if !show.fonts.contains(font.as_str()) {
            let what = joined("uses undeclared font style ", quoted(font.as_str()).as_str());
            return Some(complain("layer ", layer.name.as_str(), what.as_str()));
        }
    }
    None
}

/// What is wrong with a reel.
pub open spec fn reel_fault(reel: Reel) -> Option<Seq<char>> {
    if reel.charset@.len() == 0 {
        Some("needs a charset with a character in it"@)
    } else if !positive(reel.duration) {
        Some("needs a duration above 0"@)
    } else if !from_zero(reel.stagger) {
        Some("needs a stagger of 0 or more"@)
    } else if reel.font is None && reel.cells is None {
        Some("needs a font for its characters, or cells to draw instead"@)
    } else if reel.cells matches Some(cells) && cells.names().len() != reel.charset@.len() {
        Some("needs one cell for every character of its charset"@)
    } else if reel.window == 0 {
        Some("needs a window of at least one character"@)
    } else if not_positive(reel.step) {
        Some("needs a step above 0, or none at all to travel in one move"@)
    } else {
        offset_fault(reel.offset@)
    }
}

fn reel_fault_of(reel: &Reel) -> (r: Option<&'static str>)
    ensures
        worded(r) == reel_fault(*reel),
{
    let count: usize = reel.characters().len();
    let cells: bool = match &reel.cells {
        Some(cells) => cells.len() != count,
        None => false,
    };
    if count == 0 {
        Some("needs a charset with a character in it")
    } else if !is_positive(reel.duration) {
        Some("needs a duration above 0")
    } else if !is_from_zero(reel.stagger) {
        Some("needs a stagger of 0 or more")
    } else if reel.font.is_none() && reel.cells.is_none() {
        Some("needs a font for its characters, or cells to draw instead")
    } else if cells {
        Some("needs one cell for every character of its charset")
    } else if reel.window == 0 {
        Some("needs a window of at least one character")
    } else if is_not_positive(reel.step) {
        Some("needs a step above 0, or none at all to travel in one move")
    } else {
        offset_problem(&reel.offset)
    }
}

pub open spec fn reel_problem(layer: Layer) -> Option<Problem> {
    match layer.kind {
        LayerKind::Digits { display, .. } => match display {
            DigitDisplay::Reel(reel) => complaint_if(
                "reel of layer "@,
                layer.name@,
                reel_fault(reel),
            ),
            _ => None,
        },
        _ => None,
    }
}

fn check_reel(layer: &Layer) -> (r: Option<Error>)
    ensures
        says(r, reel_problem(*layer)),
{
    if let LayerKind::Digits { display, .. } = &layer.kind {
        if let DigitDisplay::Reel(reel) = display {
            return complain_if("reel of layer ", layer.name.as_str(), reel_fault_of(reel));
        }
    }
    None
}

/// The properties that the first `n` timelines animate, in order.
pub open spec fn animated(timelines: Seq<Timeline>, n: nat) -> Seq<Property>
    decreases n,
{
    if n == 0 || n > timelines.len() {
        Seq::empty()
    } else {
        animated(timelines, (n - 1) as nat) + timelines[n - 1].tracks@.map_values(
            |t: Track| t.property,
        )
    }
}

/// The properties a layer's timelines and bindings speak of, in order.
pub open spec fn used_properties(layer: Layer) -> Seq<Property> {
    animated(layer.timelines@, layer.timelines@.len()) + layer.bindings@.map_values(
        |b: Binding| b.property,
    )
}

fn properties_used(layer: &Layer) -> (r: Vec<Property>)
    ensures
        r@ == used_properties(*layer),
{
    let mut out: Vec<Property> = Vec::new();
    let mut i: usize = 0;
    while i < layer.timelines.len()
        invariant
            i <= layer.timelines.len(),
            out@ == animated(layer.timelines@, i as nat),
        decreases layer.timelines.len() - i,
    {
        let tracks = &layer.timelines[i].tracks;
        let ghost before = out@;
        let ghost own = tracks@.map_values(|t: Track| t.property);
        let mut k: usize = 0;
        assert(before + own.take(0) =~= before);
        while k < tracks.len()
            invariant
                k <= tracks.len(),
                own == tracks@.map_values(|t: Track| t.property),
                out@ == before + own.take(k as int),
            decreases tracks.len() - k,
        {
            out.push(tracks[k].property);
            k = k + 1;
            assert(out@ =~= before + own.take(k as int));
        }
        assert(own.take(k as int) =~= own);
        i = i + 1;
    }
    let ghost before = out@;
    let ghost own = layer.bindings@.map_values(|b: Binding| b.property);
    let mut k: usize = 0;
    assert(before + own.take(0) =~= before);
    while k < layer.bindings.len()
        invariant
            k <= layer.bindings.len(),
            own == layer.bindings@.map_values(|b: Binding| b.property),
            out@ == before + own.take(k as int),
        decreases layer.bindings.len() - k,
    {
        out.push(layer.bindings[k].property);
        k = k + 1;
        assert(out@ =~= before + own.take(k as int));
    }
    assert(own.take(k as int) =~= own);
    out
}

/// The first property from `from` on that this kind of layer does not have.
pub open spec fn unknown_property(layer: Layer, used: Seq<Property>, from: int) -> Option<Property>
    decreases used.len() - from,
{
    if from < 0 || from >= used.len() {
        None
    } else if layer.authored(used[from]) is None {
        Some(used[from])
    } else {
        unknown_property(layer, used, from + 1)
    }
}

/// What is wrong with the properties a layer speaks of.
pub open spec fn property_problem(layer: Layer) -> Option<Problem> {
    match unknown_property(layer, used_properties(layer), 0) {
        Some(property) => Some(
            complaint(
                "layer "@,
                layer.name@,
                "has no "@ + property_text(property) + " property"@,
            ),
        ),
        None => None,
    }
}

fn check_properties(layer: &Layer) -> (r: Option<Error>)
    ensures
        says(r, property_problem(*layer)),
{
    let used = properties_used(layer);
    let mut i: usize = 0;
    while i < used.len()
        invariant
            i <= used.len(),
            used@ == used_properties(*layer),
            unknown_property(*layer, used@, 0) == unknown_property(*layer, used@, i as int),
        decreases used.len() - i,
    {
        if layer.base_value(used[i]).is_none() {
            let mut what = joined("has no ", property_name(used[i]));
            what.append(" property");
            return Some(complain("layer ", layer.name.as_str(), what.as_str()));
        }
        i = i + 1;
    }
    None
}

/// What is wrong with a condition.
pub open spec fn condition_fault(condition: Option<When>) -> Option<Seq<char>> {
    match condition {
        None => None,
        Some(condition) => if condition.variable@.len() == 0 {
            Some("needs a variable in its condition"@)
        } else if not_finite(condition.threshold) {
            Some("needs a finite threshold in its condition"@)
        } else {
            None
        },
    }
}

fn condition_problem(condition: &Option<When>) -> (r: Option<&'static str>)
    ensures
        worded(r) == condition_fault(*condition),
{
    match condition {
        None => None,
        Some(condition) => {
            if is_blank(&condition.variable) {
                Some("needs a variable in its condition")
            } else if is_not_finite(condition.threshold) {
                Some("needs a finite threshold in its condition")
            } else {
                None
            }
        },
    }
}

fn is_blank(text: &String) -> (r: bool)
    ensures
        r == (text@.len() == 0),
{
    text.as_str().unicode_len() == 0
}

/// The first track from `from` on that animates what can only be bound.
pub open spec fn unanimatable(tracks: Seq<Track>, from: int) -> Option<Property>
    decreases tracks.len() - from,
{
    if from < 0 || from >= tracks.len() {
        None
    } else if !tracks[from].property.numeric() {
        Some(tracks[from].property)
    } else {
        unanimatable(tracks, from + 1)
    }
}

/// What is wrong with a timeline.
pub open spec fn timeline_fault(timeline: Timeline) -> Option<Seq<char>> {
    if timeline.looping && timeline.repeat is Some {
        Some("sets both loop and repeat"@)
    } else {
        match unanimatable(timeline.tracks@, 0) {
            Some(property) => Some(
                "animates "@ + property_text(property) + ", which can only be bound"@,
            ),
            None => if timeline.when is Some && timeline.whilst is Some {
                Some(
                    "sets both when and while, which want different things of the same condition"@,
                )
            } else {
                either(condition_fault(timeline.when), condition_fault(timeline.whilst))
            },
        }
    }
}

fn first_unanimatable(tracks: &Vec<Track>) -> (r: Option<Property>)
    ensures
        r == unanimatable(tracks@, 0),
{
    let mut i: usize = 0;
    while i < tracks.len()
        invariant
            i <= tracks.len(),
            unanimatable(tracks@, 0) == unanimatable(tracks@, i as int),
        decreases tracks.len() - i,
    {
        if !tracks[i].property.is_numeric() {
            return Some(tracks[i].property);
        }
        i = i + 1;
    }
    None
}

fn timeline_problem(timeline: &Timeline) -> (r: Option<String>)
    ensures
        match (r, timeline_fault(*timeline)) {
            (Some(a), Some(b)) => a@ == b,
            (None, None) => true,
            _ => false,
        },
{
    if timeline.looping && timeline.repeat.is_some() {
        return Some(owned("sets both loop and repeat"));
    }
    if let Some(property) = first_unanimatable(&timeline.tracks) {
        let mut what = joined("animates ", property_name(property));
        what.append(", which can only be bound");
        return Some(what);
    }
    if timeline.when.is_some() && timeline.whilst.is_some() {
        return Some(
            owned("sets both when and while, which want different things of the same condition"),
        );
    }
    if let Some(what) = condition_problem(&timeline.when) {
        return Some(owned(what));
    }
    match condition_problem(&timeline.whilst) {
        Some(what) => Some(owned(what)),
        None => None,
    }
}

/// What is wrong with a layer's timelines, from `from` on.
pub open spec fn timelines_problem(layer: Layer, from: int) -> Option<Problem>
    decreases layer.timelines@.len() - from,
{
    if from < 0 || from >= layer.timelines@.len() {
        None
    } else {
        let timeline = layer.timelines@[from];
        match timeline_fault(timeline) {
            Some(what) => Some(
                complaint(
                    "timeline "@ + quoted_text(timeline.name@) + " of layer "@,
                    layer.name@,
                    what,
                ),
            ),
            None => timelines_problem(layer, from + 1),
        }
    }
}

fn check_timelines(layer: &Layer) -> (r: Option<Error>)
    ensures
        says(r, timelines_problem(*layer, 0)),
{
    let mut i: usize = 0;
    while i < layer.timelines.len()
        invariant
            i <= layer.timelines.len(),
            timelines_problem(*layer, 0) == timelines_problem(*layer, i as int),
        decreases layer.timelines.len() - i,
    {
        let timeline = &layer.timelines[i];
        if let Some(what) = timeline_problem(timeline) {
            let mut head = joined("timeline ", quoted(timeline.name.as_str()).as_str());
            head.append(" of layer ");
            return Some(complain(head.as_str(), layer.name.as_str(), what.as_str()));
        }
        i = i + 1;
    }
    None
}

/// What is wrong with a duck.
pub open spec fn duck_fault(duck: Duck) -> Option<Seq<char>> {
    if duck.under@.len() == 0 {
        Some("needs a bus to listen to"@)
    } else if !from_zero(duck.to) {
        Some("needs a gain of 0 or more to duck to"@)
    } else if !from_zero(duck.attack) || !from_zero(duck.release) {
        Some("needs an attack and release of 0 or more"@)
    } else {
        None
    }
}

fn duck_fault_of(duck: &Duck) -> (r: Option<&'static str>)
    ensures
        worded(r) == duck_fault(*duck),
{
    if is_blank(&duck.under) {
        Some("needs a bus to listen to")
    } else if !is_from_zero(duck.to) {
        Some("needs a gain of 0 or more to duck to")
    } else if !is_from_zero(duck.attack) || !is_from_zero(duck.release) {
        Some("needs an attack and release of 0 or more")
    } else {
        None
    }
}

pub open spec fn duck_problem(layer: Layer) -> Option<Problem> {
    match layer.kind.ducks() {
        Some(duck) => complaint_if("the duck of layer "@, layer.name@, duck_fault(duck)),
        None => None,
    }
}

fn check_duck(layer: &Layer) -> (r: Option<Error>)
    ensures
        says(r, duck_problem(*layer)),
{
    match layer.kind.duck_of() {
        Some(duck) => complain_if("the duck of layer ", layer.name.as_str(), duck_fault_of(duck)),
        None => None,
    }
}

/// Whether the keys of a curve are all finite.
pub open spec fn finite_keys(keys: Seq<Key>) -> bool {
    forall|i: int|
        0 <= i < keys.len() ==> (#[trigger] keys[i]).t.finite() && keys[i].v.finite()
}

fn has_finite_keys(keys: &Vec<Key>) -> (r: bool)
    ensures
        r == finite_keys(keys@),
{
    let mut i: usize = 0;
    while i < keys.len()
        invariant
            i <= keys.len(),
            forall|k: int| 0 <= k < i ==> (#[trigger] keys@[k]).t.finite() && keys@[k].v.finite(),
        decreases keys.len() - i,
    {
        if !keys[i].t.is_finite() || !keys[i].v.is_finite() {
            assert(!keys@[i as int].t.finite() || !keys@[i as int].v.finite());
            return false;
        }
        i = i + 1;
    }
    true
}

/// Whether the keys of a curve are in order of input.
pub open spec fn sorted_keys(keys: Seq<Key>) -> bool {
    forall|i: int| 0 <= i < keys.len() - 1 ==> at_most(keys[i].t, #[trigger] keys[i + 1].t)
}

fn has_sorted_keys(keys: &Vec<Key>) -> (r: bool)
    ensures
        r == sorted_keys(keys@),
{
    let mut i: usize = 1;
    while i < keys.len()
        invariant
            1 <= i,
            keys.len() > 0 ==> i <= keys.len(),
            forall|k: int| 0 <= k < i - 1 ==> at_most(keys@[k].t, #[trigger] keys@[k + 1].t),
        decreases keys.len() - i,
    {
        if !keys[i - 1].t.le(keys[i].t) {
            assert(!at_most(keys@[i - 1].t, keys@[(i - 1) + 1].t));
            return false;
        }
        i = i + 1;
    }
    true
}

/// What is wrong with how a binding reads its variable.
pub open spec fn input_fault(binding: Binding) -> Option<Seq<char>> {
    if not_finite(binding.threshold) {
        Some("needs a finite threshold"@)
    } else if binding.decimals matches Some(d) && d > 15 {
        Some("asks for more decimals than a number has"@)
    } else if not_from_zero(binding.debounce) {
        Some("needs a debounce of 0 or more"@)
    } else if binding.curve@.len() > 0 && binding.threshold is Some {
        Some("sets both curve and threshold, which are the same job"@)
    } else if binding.curve@.len() > 0 && !finite_keys(binding.curve@) {
        Some("needs finite curve keys"@)
    } else if binding.curve@.len() > 0 && !sorted_keys(binding.curve@) {
        Some("needs its curve keys in order of input"@)
    } else {
        None
    }
}

fn input_fault_of(binding: &Binding) -> (r: Option<&'static str>)
    ensures
        worded(r) == input_fault(*binding),
{
    let decimals: bool = match binding.decimals {
        Some(d) => d > 15,
        None => false,
    };
    let curved: bool = binding.curve.len() > 0;
    if is_not_finite(binding.threshold) {
        Some("needs a finite threshold")
    } else if decimals {
        Some("asks for more decimals than a number has")
    } else if is_not_from_zero(binding.debounce) {
        Some("needs a debounce of 0 or more")
    } else if curved && binding.threshold.is_some() {
        Some("sets both curve and threshold, which are the same job")
    } else if curved && !has_finite_keys(&binding.curve) {
        Some("needs finite curve keys")
    } else if curved && !has_sorted_keys(&binding.curve) {
        Some("needs its curve keys in order of input")
    } else {
        None
    }
}

/// Whether a transition says how to go round a ring.
pub open spec fn rings(t: Transition) -> bool {
    t.wrap is Some || t.direction is Some
}

/// Whether a transition says how an eased move is made.
pub open spec fn eases(t: Transition) -> bool {
    positive(t.duration) || rings(t) || t.step is Some || t.offset@.len() > 0 || t.ease
        != Easing::Linear
}

/// What is wrong with a binding's transition.
pub open spec fn transition_fault(property: Property, t: Transition) -> Option<Seq<char>> {
    if property == Property::Font || property == Property::Visible {
        Some("is on a binding that cannot be eased"@)
    } else if property == Property::Tint && rings(t) {
        Some("sets wrap or direction, which a color has no use for"@)
    } else if t.model is Some && eases(t) {
        Some("follows a model, which decides its own timing, shape and way round"@)
    } else if t.model is None && (t.kelvin is Some || t.heating is Some || t.cooling is Some) {
        Some("shapes a filament without naming a model to follow"@)
    } else if t.model is Some && (not_positive(t.kelvin) || not_positive(t.heating) || not_positive(
        t.cooling,
    )) {
        Some("needs a kelvin, heating and cooling above 0"@)
    } else if t.model is None && !positive(t.duration) {
        Some("needs a duration above 0"@)
    } else if not_positive(t.wrap) {
        Some("needs a wrap above 0"@)
    } else if t.direction is Some && t.wrap is None {
        Some("sets a direction, which needs wrap"@)
    } else if not_positive(t.step) {
        Some("needs a step above 0"@)
    } else {
        offset_fault(t.offset@)
    }
}

fn transition_fault_of(property: Property, t: &Transition) -> (r: Option<&'static str>)
    ensures
        worded(r) == transition_fault(property, *t),
{
    let ring: bool = t.wrap.is_some() || t.direction.is_some();
    let modelled: bool = t.model.is_some();
    let eased: bool = is_positive(t.duration) || ring || t.step.is_some() || t.offset.len() > 0
        || t.ease != Easing::Linear;
    if property == Property::Font || property == Property::Visible {
        Some("is on a binding that cannot be eased")
    } else if property == Property::Tint && ring {
        Some("sets wrap or direction, which a color has no use for")
    } else if modelled && eased {
        Some("follows a model, which decides its own timing, shape and way round")
    } else if !modelled && (t.kelvin.is_some() || t.heating.is_some() || t.cooling.is_some()) {
        Some("shapes a filament without naming a model to follow")
    } else if modelled && (is_not_positive(t.kelvin) || is_not_positive(t.heating) || is_not_positive(
        t.cooling,
    )) {
        Some("needs a kelvin, heating and cooling above 0")
    } else if !modelled && !is_positive(t.duration) {
        Some("needs a duration above 0")
    } else if is_not_positive(t.wrap) {
        Some("needs a wrap above 0")
    } else if t.direction.is_some() && t.wrap.is_none() {
        Some("sets a direction, which needs wrap")
    } else if is_not_positive(t.step) {
        Some("needs a step above 0")
    } else {
        offset_problem(&t.offset)
    }
}

/// Whether a binding drives a filament, so that it takes a power level.
pub open spec fn lamp(binding: Binding) -> bool {
    binding.transition matches Some(t) && t.model is Some
}

pub(crate) fn is_lamp(binding: &Binding) -> (r: bool)
    ensures
        r == lamp(*binding),
{
    match &binding.transition {
        Some(t) => t.model.is_some(),
        None => false,
    }
}

/// The values a binding can put in place of its variable's, in order: those it maps to and
/// its default.
pub open spec fn mapped_values(binding: Binding) -> Seq<Held> {
    (match binding.map {
        Some(map) => map@.map_values(|e: (Seq<char>, Held)| e.1),
        None => Seq::empty(),
    }) + (match binding.default {
        Some(value) => seq![value@],
        None => Seq::empty(),
    })
}

/// Whether a value can be a tint.
pub open spec fn is_tint(value: Held) -> bool {
    value matches Held::Text(c) && (c.len() == 0 || color_of(c) is Some)
}

/// Whether a value names a font style.
pub open spec fn is_style(show: Show, value: Held) -> bool {
    value matches Held::Text(style) && lookup(show.fonts@, style) is Some
}

/// The first value from `from` on that a property cannot take.
pub open spec fn bad_value(show: Show, property: Property, values: Seq<Held>, from: int) -> Option<Held>
    decreases values.len() - from,
{
    if from < 0 || from >= values.len() {
        None
    } else if property == Property::Tint && !is_tint(values[from]) || property == Property::Font
        && !is_style(show, values[from]) {
        Some(values[from])
    } else {
        bad_value(show, property, values, from + 1)
    }
}

/// What is wrong with the values a binding maps to.
pub open spec fn mapped_problem(show: Show, layer: Layer, binding: Binding) -> Option<Problem> {
    if binding.property == Property::Tint && !lamp(binding) {
        match bad_value(show, Property::Tint, mapped_values(binding), 0) {
            Some(value) => Some(
                complaint(
                    "tint binding of layer "@,
                    layer.name@,
                    "maps to "@ + value_text(value) + ", not a color"@,
                ),
            ),
            None => None,
        }
    } else if binding.property == Property::Font {
        match bad_value(show, Property::Font, mapped_values(binding), 0) {
            Some(value) => Some(
                complaint(
                    "font binding of layer "@,
                    layer.name@,
                    "maps to "@ + value_text(value) + ", not a declared font style"@,
                ),
            ),
            None => None,
        }
    } else {
        None
    }
}

fn takes(show: &Show, property: Property, value: &Value) -> (r: bool)
    ensures
        r == !(property == Property::Tint && !is_tint(value@) || property == Property::Font
            && !is_style(*show, value@)),
{
    match property {
        Property::Tint => match value {
            Value::Text(c) => is_blank(c) || parse_color(c.as_str()).is_some(),
            _ => false,
        },
        Property::Font => match value {
            Value::Text(style) => show.fonts.contains(style.as_str()),
            _ => false,
        },
        _ => true,
    }
}

fn first_bad_value(show: &Show, binding: &Binding) -> (r: Option<String>)
    ensures
        match (r, bad_value(*show, binding.property, mapped_values(*binding), 0)) {
            (Some(text), Some(value)) => text@ == value_text(value),
            (None, None) => true,
            _ => false,
        },
{
    let property = binding.property;
    let ghost values = mapped_values(*binding);
    let mut count: usize = 0;
    if let Some(map) = &binding.map {
        let ghost own = map@.map_values(|e: (Seq<char>, Held)| e.1);
        let n: usize = map.len();
        assert(own.len() == n);
        while count < n
            invariant
                count <= n == map@.len(),
                own == map@.map_values(|e: (Seq<char>, Held)| e.1),
                values == mapped_values(*binding),
                values == own + (match binding.default {
                    Some(value) => seq![value@],
                    None => Seq::empty(),
                }),
                property == binding.property,
                bad_value(*show, property, values, 0) == bad_value(
                    *show,
                    property,
                    values,
                    count as int,
                ),
            decreases n - count,
        {
            let value = map.value_at(count);
            assert(values[count as int] == value@);
            if !takes(show, property, value) {
                return Some(value_name(value));
            }
            count = count + 1;
        }
    }
    if let Some(value) = &binding.default {
        assert(values[count as int] == value@);
        if !takes(show, property, value) {
            return Some(value_name(value));
        }
        assert(bad_value(*show, property, values, count as int + 1) is None);
    }
    None
}

fn check_mapped(show: &Show, layer: &Layer, binding: &Binding) -> (r: Option<Error>)
    ensures
        says(r, mapped_problem(*show, *layer, *binding)),
{
    // A modelled tint takes a power level, not a color: the filament decides what color that
    // is.
    if binding.property == Property::Tint && !is_lamp(binding) {
        if let Some(value) = first_bad_value(show, binding) {
            let mut what = joined("maps to ", value.as_str());
            what.append(", not a color");
            return Some(
                complain("tint binding of layer ", layer.name.as_str(), what.as_str()),
            );
        }
    } else if binding.property == Property::Font {
        if let Some(value) = first_bad_value(show, binding) {
            let mut what = joined("maps to ", value.as_str());
            what.append(", not a declared font style");
            return Some(
                complain("font binding of layer ", layer.name.as_str(), what.as_str()),
            );
        }
    }
    None
}

/// How a complaint about a binding starts.
pub open spec fn binding_head(property: Property) -> Seq<char> {
    "the "@ + property_text(property) + " binding of layer "@
}

pub(crate) fn binding_start(property: Property) -> (r: String)
    ensures
        r@ == binding_head(property),
{
    let mut head = joined("the ", property_name(property));
    head.append(" binding of layer ");
    head
}

/// What is wrong with a binding.
pub open spec fn binding_problem(show: Show, layer: Layer, binding: Binding) -> Option<Problem> {
    either(
        complaint_if(binding_head(binding.property), layer.name@, input_fault(binding)),
        either(
            match binding.transition {
                Some(t) => complaint_if(
                    "transition of "@ + binding_head(binding.property),
                    layer.name@,
                    transition_fault(binding.property, t),
                ),
                None => None,
            },
            mapped_problem(show, layer, binding),
        ),
    )
}

fn check_binding(show: &Show, layer: &Layer, binding: &Binding) -> (r: Option<Error>)
    ensures
        says(r, binding_problem(*show, *layer, *binding)),
{
    let head = binding_start(binding.property);
    let input = complain_if(head.as_str(), layer.name.as_str(), input_fault_of(binding));
    if input.is_some() {
        return input;
    }
    if let Some(t) = &binding.transition {
        let start = joined("transition of ", head.as_str());
        let eased = complain_if(
            start.as_str(),
            layer.name.as_str(),
            transition_fault_of(binding.property, t),
        );
        if eased.is_some() {
            return eased;
        }
    }
    check_mapped(show, layer, binding)
}

/// What is wrong with a layer's bindings, from `from` on.
pub open spec fn bindings_problem(show: Show, layer: Layer, from: int) -> Option<Problem>
    decreases layer.bindings@.len() - from,
{
    if from < 0 || from >= layer.bindings@.len() {
        None
    } else {
        either(
            binding_problem(show, layer, layer.bindings@[from]),
            bindings_problem(show, layer, from + 1),
        )
    }
}

fn check_bindings(show: &Show, layer: &Layer) -> (r: Option<Error>)
    ensures
        says(r, bindings_problem(*show, *layer, 0)),
{
    let mut i: usize = 0;
    while i < layer.bindings.len()
        invariant
            i <= layer.bindings.len(),
            bindings_problem(*show, *layer, 0) == bindings_problem(*show, *layer, i as int),
        decreases layer.bindings.len() - i,
    {
        let found = check_binding(show, layer, &layer.bindings[i]);
        if found.is_some() {
            return found;
        }
        i = i + 1;
    }
    None
}

/// What is wrong with a layer's anchor and tint.
pub open spec fn content_problem(layer: Layer) -> Option<Problem> {
    match layer.kind {
        LayerKind::Group { .. } => if layer.anchor is Some {
            Some(complaint("layer "@, layer.name@, "has an anchor, but no content box"@))
        } else {
            None
        },
        LayerKind::Audio { .. } => if layer.anchor is Some {
            Some(complaint("layer "@, layer.name@, "has an anchor, but no content box"@))
        } else {
            None
        },
        LayerKind::Image { tint, .. } => match tint {
            Some(tint) => match color_or(tint@) {
                Err(problem) => Some(problem),
                Ok(_) => None,
            },
            None => None,
        },
        _ => None,
    }
}

fn check_content(layer: &Layer) -> (r: Option<Error>)
    ensures
        says(r, content_problem(*layer)),
{
    let boxless: bool = match &layer.kind {
        LayerKind::Group { .. } => true,
        LayerKind::Audio { .. } => true,
        _ => false,
    };
    if boxless && layer.anchor.is_some() {
        return Some(
            complain("layer ", layer.name.as_str(), "has an anchor, but no content box"),
        );
    }
    if let LayerKind::Image { tint, .. } = &layer.kind {
        if let Some(tint) = tint {
            if let Err(e) = color_from(tint) {
                return Some(e);
            }
        }
    }
    None
}

/// What is wrong with a layer's playhead.
pub open spec fn media_fault(media: MediaInfo, gain: Num) -> Option<Seq<char>> {
    if media.looping && media.repeat is Some {
        Some("sets both loop and repeat"@)
    } else if !from_zero(media.delay) {
        Some("needs a delay of 0 or more"@)
    } else if not_from_zero(media.repeat) {
        Some("needs a repeat of 0 or more"@)
    } else if !from_zero(gain) {
        Some("needs a gain of 0 or more"@)
    } else if media.retrigger == Retrigger::Overlap && media.voices == 0 {
        Some("needs at least one voice to overlap"@)
    } else if media.retrigger == Retrigger::Overlap && media.kind == MediaKind::Video {
        Some("cannot overlap: a video layer shows one picture at a time"@)
    } else if media.names.0@.len() == 0 {
        Some("names nothing to play"@)
    } else if !from_zero(media.rest) {
        Some("needs a rest of 0 or more"@)
    } else {
        None
    }
}

pub open spec fn media_problem(layer: Layer) -> Option<Problem> {
    match (layer.kind.playhead(), layer.kind) {
        (Some(media), LayerKind::Audio { gain, .. }) => complaint_if(
            "audio layer "@,
            layer.name@,
            media_fault(media, gain),
        ),
        (Some(media), LayerKind::Video { gain, .. }) => complaint_if(
            "video layer "@,
            layer.name@,
            media_fault(media, gain),
        ),
        _ => None,
    }
}

fn check_media(layer: &Layer) -> (r: Option<Error>)
    ensures
        says(r, media_problem(*layer)),
{
    let media = match layer.kind.media() {
        Some(media) => media,
        None => {
            return None;
        },
    };
    let gain = match &layer.kind {
        LayerKind::Audio { gain, .. } => *gain,
        LayerKind::Video { gain, .. } => *gain,
        _ => num(ONE),
    };
    let problem: Option<&'static str> =
    if media.looping && media.repeat.is_some() {
        Some("sets both loop and repeat")
    } else if !is_from_zero(media.delay) {
        Some("needs a delay of 0 or more")
    } else if is_not_from_zero(media.repeat) {
        Some("needs a repeat of 0 or more")
    } else if !is_from_zero(gain) {
        Some("needs a gain of 0 or more")
    } else if media.retrigger == Retrigger::Overlap && media.voices == 0 {
        Some("needs at least one voice to overlap")
    } else if media.retrigger == Retrigger::Overlap && media.kind == MediaKind::Video {
        Some("cannot overlap: a video layer shows one picture at a time")
    } else if media.names.is_empty() {
        Some("names nothing to play")
    } else if !is_from_zero(media.rest) {
        Some("needs a rest of 0 or more")
    } else {
        None
    };
    let head: &str = match media.kind {
        MediaKind::Sound => "audio layer ",
        MediaKind::Video => "video layer ",
    };
    complain_if(head, layer.name.as_str(), problem)
}

/// What is wrong with a layer, if anything: the first of what is checked, in order.
#[verifier::opaque]
pub open spec fn layer_problem(show: Show, layer: Layer) -> Option<Problem> {
    either(
        paint_problem(layer),
        either(
            style_problem(show, layer),
            either(
                reel_problem(layer),
                either(
                    property_problem(layer),
                    either(
                        timelines_problem(layer, 0),
                        either(
                            duck_problem(layer),
                            either(
                                bindings_problem(show, layer, 0),
                                either(content_problem(layer), media_problem(layer)),
                            ),
                        ),
                    ),
                ),
            ),
        ),
    )
}

fn check_layer(show: &Show, layer: &Layer) -> (r: Option<Error>)
    ensures
        says(r, layer_problem(*show, *layer)),
{
    proof {
        reveal(layer_problem);
    }
    let paint = check_paint(layer);
    if paint.is_some() {
        return paint;
    }
    let style = check_style(show, layer);
    if style.is_some() {
        return style;
    }
    let reel = check_reel(layer);
    if reel.is_some() {
        return reel;
    }
    let properties = check_properties(layer);
    if properties.is_some() {
        return properties;
    }
    let timelines = check_timelines(layer);
    if timelines.is_some() {
        return timelines;
    }
    let duck = check_duck(layer);
    if duck.is_some() {
        return duck;
    }
    let bindings = check_bindings(show, layer);
    if bindings.is_some() {
        return bindings;
    }
    let content = check_content(layer);
    if content.is_some() {
        return content;
    }
    check_media(layer)
}

/// What is wrong with the layers of a list of nodes, from `from` on.
pub open spec fn nodes_problem(show: Show, list: Seq<(Seq<usize>, Layer)>, from: int) -> Option<Problem>
    decreases list.len() - from,
{
    if from < 0 || from >= list.len() {
        None
    } else {
        either(layer_problem(show, list[from].1), nodes_problem(show, list, from + 1))
    }
}

/// What is wrong with a layer tree, each layer ahead of its children.
pub open spec fn tree_problem(show: Show, layers: Seq<Layer>) -> Option<Problem> {
    nodes_problem(show, nodes(layers, Seq::empty()), 0)
}

fn check_tree(show: &Show, layers: &[Layer]) -> (r: Option<Error>)
    ensures
        says(r, tree_problem(*show, layers@)),
{
    let list = layer_nodes(layers);
    let ghost all = nodes(layers@, Seq::empty());
    let mut i: usize = 0;
    while i < list.len()
        invariant
            i <= list.len(),
            node_views(list@) == all,
            all == nodes(layers@, Seq::empty()),
            nodes_problem(*show, all, 0) == nodes_problem(*show, all, i as int),
        decreases list.len() - i,
    {
        assert(all[i as int] == list@[i as int]@);
        let found = check_layer(show, list[i].layer);
        if found.is_some() {
            return found;
        }
        i = i + 1;
    }
    None
}

/// What is wrong with the scenes' layers, from scene `from` on.
pub open spec fn scenes_problem(show: Show, from: int) -> Option<Problem>
    decreases show.scenes@.len() - from,
{
    if from < 0 || from >= show.scenes@.len() {
        None
    } else {
        either(tree_problem(show, show.scenes@[from].layers@), scenes_problem(show, from + 1))
    }
}

/// What is wrong with a font style: its colors, or where its shadow sits.
pub open spec fn font_style_problem(style: FontStyle) -> Option<Problem> {
    either(
        color_problem(Some(style.color@)),
        either(
            color_problem(
                match style.border {
                    Some(border) => Some(border.color@),
                    None => None,
                },
            ),
            match style.shadow {
                None => None,
                Some(shadow) => either(
                    color_problem(Some(shadow.color@)),
                    if shadow.offset[0].finite() && shadow.offset[1].finite() {
                        None
                    } else {
                        Some(
                            complaint(
                                "font style "@,
                                style.file@,
                                "needs a finite shadow offset"@,
                            ),
                        )
                    },
                ),
            },
        ),
    )
}

/// What is wrong with a text that has to be a color, where there is one.
pub open spec fn color_problem(text: Option<Seq<char>>) -> Option<Problem> {
    match text {
        Some(text) => match color_or(text) {
            Err(problem) => Some(problem),
            Ok(_) => None,
        },
        None => None,
    }
}

fn check_font_style(style: &FontStyle) -> (r: Option<Error>)
    ensures
        says(r, font_style_problem(*style)),
{
    if let Err(e) = color_from(&style.color) {
        return Some(e);
    }
    if let Some(border) = &style.border {
        if let Err(e) = color_from(&border.color) {
            return Some(e);
        }
    }
    if let Some(shadow) = &style.shadow {
        if let Err(e) = color_from(&shadow.color) {
            return Some(e);
        }
        if !shadow.offset[0].is_finite() || !shadow.offset[1].is_finite() {
            return Some(
                complain("font style ", style.file.as_str(), "needs a finite shadow offset"),
            );
        }
    }
    None
}

/// What is wrong with the font styles, from `from` on.
pub open spec fn fonts_problem(fonts: Seq<(Seq<char>, FontStyle)>, from: int) -> Option<Problem>
    decreases fonts.len() - from,
{
    if from < 0 || from >= fonts.len() {
        None
    } else {
        either(font_style_problem(fonts[from].1), fonts_problem(fonts, from + 1))
    }
}

fn check_fonts(show: &Show) -> (r: Option<Error>)
    ensures
        says(r, fonts_problem(show.fonts@, 0)),
{
    let n: usize = show.fonts.len();
    let mut i: usize = 0;
    while i < n
        invariant
            i <= n == show.fonts@.len(),
            fonts_problem(show.fonts@, 0) == fonts_problem(show.fonts@, i as int),
        decreases n - i,
    {
        let found = check_font_style(show.fonts.value_at(i));
        if found.is_some() {
            return found;
        }
        i = i + 1;
    }
    None
}

/// What is wrong with the timelines of a show value, from `from` on.
pub open spec fn value_timelines_problem(
    name: Seq<char>,
    timelines: Seq<ValueTimeline>,
    from: int,
) -> Option<Problem>
    decreases timelines.len() - from,
{
    if from < 0 || from >= timelines.len() {
        None
    } else if timelines[from].looping && timelines[from].repeat is Some {
        Some(
            complaint(
                "timeline "@ + quoted_text(timelines[from].name@) + " of value "@,
                name,
                "sets both loop and repeat"@,
            ),
        )
    } else {
        value_timelines_problem(name, timelines, from + 1)
    }
}

/// What is wrong with the show's values, from `from` on.
pub open spec fn values_problem(values: Seq<(Seq<char>, ShowValue)>, from: int) -> Option<Problem>
    decreases values.len() - from,
{
    if from < 0 || from >= values.len() {
        None
    } else {
        either(
            value_timelines_problem(values[from].0, values[from].1.timelines@, 0),
            values_problem(values, from + 1),
        )
    }
}

fn check_value(name: &String, value: &ShowValue) -> (r: Option<Error>)
    ensures
        says(r, value_timelines_problem(name@, value.timelines@, 0)),
{
    let list = &value.timelines;
    let mut i: usize = 0;
    while i < list.len()
        invariant
            i <= list.len(),
            list@ == value.timelines@,
            value_timelines_problem(name@, list@, 0) == value_timelines_problem(
                name@,
                list@,
                i as int,
            ),
        decreases list.len() - i,
    {
        if list[i].looping && list[i].repeat.is_some() {
            let mut head = joined("timeline ", quoted(list[i].name.as_str()).as_str());
            head.append(" of value ");
            return Some(complain(head.as_str(), name.as_str(), "sets both loop and repeat"));
        }
        i = i + 1;
    }
    None
}

fn check_values(show: &Show) -> (r: Option<Error>)
    ensures
        says(r, values_problem(show.values@, 0)),
{
    let n: usize = show.values.len();
    let mut i: usize = 0;
    while i < n
        invariant
            i <= n == show.values@.len(),
            values_problem(show.values@, 0) == values_problem(show.values@, i as int),
        decreases n - i,
    {
        let found = check_value(show.values.name_at(i), show.values.value_at(i));
        if found.is_some() {
            return found;
        }
        i = i + 1;
    }
    None
}

/// What is wrong with a show beyond its shape: its font styles, the layers of every tree, and
/// its values.
pub open spec fn show_problem(show: Show) -> Option<Problem> {
    either(
        fonts_problem(show.fonts@, 0),
        either(
            tree_problem(show, show.layers@),
            either(scenes_problem(show, 0), values_problem(show.values@, 0)),
        ),
    )
}

/// The checks beyond parsing: colors parse, text layers use declared font styles, only numeric
/// properties are keyframed.
pub fn validate(show: &Show) -> (r: Result<(), Error>)
    ensures
        match (r, show_problem(*show)) {
            (Ok(()), None) => true,
            (Err(e), Some(problem)) => e@ == problem,
            _ => false,
        },
{
    if let Some(e) = check_fonts(show) {
        return Err(e);
    }
    if let Some(e) = check_tree(show, show.layers.as_slice()) {
        return Err(e);
    }
    let mut i: usize = 0;
    while i < show.scenes.len()
        invariant
            i <= show.scenes.len(),
            show_problem(*show) == either(
                scenes_problem(*show, i as int),
                values_problem(show.values@, 0),
            ),
        decreases show.scenes.len() - i,
    {
        if let Some(e) = check_tree(show, show.scenes[i].layers.as_slice()) {
            return Err(e);
        }
        i = i + 1;
    }
    if let Some(e) = check_values(show) {
        return Err(e);
    }
    Ok(())
}

/// What is wrong with a pass over the finished frame.
pub open spec fn pass_problem(pass: Pass) -> Option<Problem> {
    match pass {
        Pass::Dots(dots) => if !(less(num(0), dots.size) && at_most(dots.size, num(ONE))) {
            Some(Problem::InvalidShow("a dots pass needs a size above 0, up to 1"@))
        } else if !(at_most(num(0), dots.glow) && at_most(dots.glow, num(ONE))) {
            Some(Problem::InvalidShow("a dots pass needs a glow from 0 to 1"@))
        } else {
            color_problem(
                match dots.unlit {
                    Some(unlit) => Some(unlit@),
                    None => None,
                },
            )
        },
    }
}

fn check_pass(pass: &Pass) -> (r: Option<Error>)
    ensures
        says(r, pass_problem(*pass)),
{
    match pass {
        Pass::Dots(dots) => {
            if !(num(0).lt(dots.size) && dots.size.le(num(ONE))) {
                return Some(
                    Error::InvalidShow(owned("a dots pass needs a size above 0, up to 1")),
                );
            }
            if !(num(0).le(dots.glow) && dots.glow.le(num(ONE))) {
                return Some(Error::InvalidShow(owned("a dots pass needs a glow from 0 to 1")));
            }
            if let Some(unlit) = &dots.unlit {
                if let Err(e) = color_from(unlit) {
                    return Some(e);
                }
            }
            None
        },
    }
}

pub open spec fn passes_problem(passes: Seq<Pass>, from: int) -> Option<Problem>
    decreases passes.len() - from,
{
    if from < 0 || from >= passes.len() {
        None
    } else {
        either(pass_problem(passes[from]), passes_problem(passes, from + 1))
    }
}

/// What is wrong with an output: its tint, or its passes.
pub open spec fn output_problem(output: OutputSet) -> Option<Problem> {
    if resolved_output(output) is None {
        Some(
            Problem::InvalidColor(
                match output.tint {
                    Some(tint) => tint,
                    None => Seq::empty(),
                },
            ),
        )
    } else {
        match output.passes {
            Some(passes) => passes_problem(passes, 0),
            None => None,
        }
    }
}

fn check_output(output: &Output) -> (r: Option<Error>)
    ensures
        says(r, output_problem(output@)),
{
    if OutputColor::from_output(output).is_none() {
        let tint = match &output.tint {
            Some(tint) => tint.clone(),
            None => String::new(),
        };
        assert(output.tint is None ==> tint@ =~= Seq::<char>::empty());
        return Some(Error::InvalidColor(tint));
    }
    if let Some(passes) = &output.passes {
        let mut i: usize = 0;
        while i < passes.len()
            invariant
                i <= passes.len(),
                output_problem(output@) == passes_problem(passes@, i as int),
            decreases passes.len() - i,
        {
            let found = check_pass(&passes[i]);
            if found.is_some() {
                return found;
            }
            i = i + 1;
        }
    }
    None
}

/// What is wrong with the outputs that scenes set, from scene `from` on.
pub open spec fn scene_outputs_problem(scenes: Seq<Scene>, from: int) -> Option<Problem>
    decreases scenes.len() - from,
{
    if from < 0 || from >= scenes.len() {
        None
    } else {
        either(
            match scenes[from].output {
                Some(output) => output_problem(output@),
                None => None,
            },
            scene_outputs_problem(scenes, from + 1),
        )
    }
}

/// What is wrong with a show's output, or a scene's.
pub open spec fn outputs_problem(show: Show) -> Option<Problem> {
    either(output_problem(show.output@), scene_outputs_problem(show.scenes@, 0))
}

pub(crate) fn check_outputs(show: &Show) -> (r: Option<Error>)
    ensures
        says(r, outputs_problem(*show)),
{
    let own = check_output(&show.output);
    if own.is_some() {
        return own;
    }
    let mut i: usize = 0;
    while i < show.scenes.len()
        invariant
            i <= show.scenes.len(),
            outputs_problem(*show) == scene_outputs_problem(show.scenes@, i as int),
        decreases show.scenes.len() - i,
    {
        if let Some(output) = &show.scenes[i].output {
            let found = check_output(output);
            if found.is_some() {
                return found;
            }
        }
        i = i + 1;
    }
    None
}

} // verus!
