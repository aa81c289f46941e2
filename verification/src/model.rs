//! The show model: what a show document describes, and what can be read off it directly.

use crate::easing::Easing;
use crate::names::NameMap;
use crate::num::{
    abs_of, at_most, equal, less, max_of, min_of, num, opposite_of, product_of, quotient_of,
    rem_euclid_of, remainder_of, sum_of, Num,
};
use crate::path::PathData;
use crate::text::{chars_of, owned, same_text};
use crate::value::{Held, NumberFormat, Value};
use crate::waves::{ONE, TWO};
use vstd::prelude::*;

verus! {

/// The show format version this engine reads and writes. It goes up when a change could make
/// an older engine misread a show; engines refuse shows of a newer format instead of playing
/// them wrongly.
pub const FORMAT: u32 = 1;

/// 0.8: the diameter of a dot as a share of the pixel pitch, when a pass does not say.
pub const DOT_SIZE: u64 = 0x3FE9_9999_9999_999A;

/// 1e-9: how far past a whole number of moves a change may be and still take that many.
pub const MOVE_SLACK: u64 = 0x3E11_2E0B_E826_D695;

/// A declarative show description.
#[derive(Debug, PartialEq)]
pub struct Show {
    /// Show format version, see [`FORMAT`].
    pub format: u32,
    pub name: String,
    /// Logical canvas size in pixels `[width, height]`.
    pub size: [u32; 2],
    /// Background color, `#RRGGBB` or `#RRGGBBAA`.
    pub background: String,
    /// How rendered colors reach the display; scenes can override it.
    pub output: Output,
    /// Named text styles for text layers.
    pub fonts: NameMap<FontStyle>,
    /// Declared variables and their initial values.
    pub variables: NameMap<Value>,
    /// Values the show animates itself, read by bindings the way a variable is.
    pub values: NameMap<ShowValue>,
    /// Layers that are always present, painted behind the active scene.
    pub layers: Vec<Layer>,
    /// Switchable views; exactly one is active at a time (the first one when the show loads),
    /// entered by firing its trigger.
    pub scenes: Vec<Scene>,
}

/// Whether a name is among several.
pub open spec fn listed(names: Seq<String>, name: Seq<char>) -> bool {
    exists|i: int| 0 <= i < names.len() && (#[trigger] names[i])@ == name
}

fn is_listed(names: &Vec<String>, name: &str) -> (r: bool)
    ensures
        r == listed(names@, name@),
{
    let mut i: usize = 0;
    while i < names.len()
        invariant
            i <= names.len(),
            forall|j: int| 0 <= j < i ==> (#[trigger] names@[j])@ != name@,
        decreases names.len() - i,
    {
        if same_text(names[i].as_str(), name) {
            assert(names@[i as int]@ == name@);
            return true;
        }
        i = i + 1;
    }
    false
}

/// The trigger names something listens to: in a show document one name, a list, or nothing.
/// Firing any of them has the same effect.
#[derive(Debug, PartialEq, Eq)]
pub struct Triggers(pub Vec<String>);

impl Triggers {
    pub open spec fn has(self, name: Seq<char>) -> bool {
        listed(self.0@, name)
    }

    pub fn contains(&self, name: &str) -> (r: bool)
        ensures
            r == self.has(name@),
    {
        is_listed(&self.0, name)
    }

    /// The names, in the order they were written.
    pub fn iter(&self) -> (r: &[String])
        ensures
            r@ == self.0@,
    {
        self.0.as_slice()
    }

    pub fn is_empty(&self) -> (r: bool)
        ensures
            r == (self.0@.len() == 0),
    {
        self.0.len() == 0
    }
}

/// One asset name, or several for a layer to pick between.
#[derive(Debug, PartialEq, Eq)]
pub struct Choice(pub Vec<String>);

impl Choice {
    /// The name at a position; nothing past the last.
    pub open spec fn name_at(self, index: int) -> Seq<char> {
        if 0 <= index < self.0@.len() {
            self.0@[index]@
        } else {
            Seq::empty()
        }
    }

    /// A choice of exactly one name.
    pub fn one(name: String) -> (r: Choice)
        ensures
            r.0@ == seq![name],
    {
        let mut names: Vec<String> = Vec::new();
        names.push(name);
        assert(names@ =~= seq![name]);
        Choice(names)
    }

    /// The name at `index`, or nothing when there are none.
    pub fn get(&self, index: usize) -> (r: &str)
        ensures
            r@ == self.name_at(index as int),
    {
        if index < self.0.len() {
            self.0[index].as_str()
        } else {
            proof {
                reveal_strlit("");
                assert(""@ =~= Seq::<char>::empty());
            }
            ""
        }
    }

    /// The first name, or `""`.
    pub fn first(&self) -> (r: &str)
        ensures
            r@ == self.name_at(0),
    {
        self.get(0)
    }

    pub fn len(&self) -> (r: usize)
        ensures
            r == self.0@.len(),
    {
        self.0.len()
    }

    pub fn is_empty(&self) -> (r: bool)
        ensures
            r == (self.0@.len() == 0),
    {
        self.0.len() == 0
    }

    /// The names, in the order they were written.
    pub fn iter(&self) -> (r: &[String])
        ensures
            r@ == self.0@,
    {
        self.0.as_slice()
    }
}

/// Which of a layer's several assets a play uses: a function of how many times the layer has
/// played, never of a running dice roll.
#[derive(Clone, Copy, Debug, PartialEq, Eq, Structural)]
pub enum Pick {
    /// The next one each play, wrapping round at the end.
    InOrder,
    /// Any of them, which may be the one that just played.
    Random,
    /// All of them in a scrambled order, then scrambled again.
    Shuffle,
}

/// A switchable view of the show: its layers render only while it is the active scene.
#[derive(Debug, PartialEq)]
pub struct Scene {
    pub name: String,
    /// What enters this scene.
    pub trigger: Triggers,
    /// Output color handling while this scene is active; the show's when omitted.
    pub output: Option<Output>,
    pub layers: Vec<Layer>,
}

/// How the finished frame reaches the display. Every field is optional: a scene's output
/// overrides only the fields it sets.
#[derive(Debug, PartialEq)]
pub struct Output {
    /// Color conversion; `Rgb` by default.
    pub mode: Option<OutputMode>,
    /// Color that full luminance maps to in the gray modes, `#RRGGBB`.
    pub tint: Option<String>,
    /// How hosts scale the frame up to their surface.
    pub scaling: Option<Scaling>,
    /// Effects applied to the finished frame as it is shown, in order.
    pub passes: Option<Vec<Pass>>,
}

/// An effect on the finished frame, applied where it is shown.
#[derive(Debug, PartialEq)]
pub enum Pass {
    /// Every canvas pixel becomes a dot, as on a dot matrix display.
    Dots(Dots),
}

/// The dot matrix look: canvas pixels shown as separate dots on black.
#[derive(Debug, PartialEq)]
pub struct Dots {
    /// Dot diameter as a share of the pixel pitch, above 0 up to 1.
    pub size: Num,
    pub shape: DotShape,
    /// Color of a dot that is off, `#RRGGBB`.
    pub unlit: Option<String>,
    /// How much lit dots bleed into the dark around them, 0 to 1.
    pub glow: Num,
}

impl Default for Dots {
    fn default() -> (r: Dots)
        ensures
            r.size == num(DOT_SIZE),
            r.shape == DotShape::Round,
            r.unlit is None,
            r.glow == num(0),
    {
        Dots { size: num(DOT_SIZE), shape: DotShape::Round, unlit: None, glow: num(0) }
    }
}

#[derive(Clone, Copy, Debug, PartialEq, Eq, Structural)]
pub enum DotShape {
    Round,
    /// Square dots with gaps: an LED matrix.
    Square,
}

impl Dots {
    pub(crate) fn copy(&self) -> (r: Dots)
        ensures
            r == *self,
    {
        Dots {
            size: self.size,
            shape: self.shape,
            unlit: match &self.unlit {
                Some(color) => Some(color.clone()),
                None => None,
            },
            glow: self.glow,
        }
    }
}

pub(crate) fn copy_passes(passes: &Vec<Pass>) -> (r: Vec<Pass>)
    ensures
        r@ == passes@,
{
    let mut out: Vec<Pass> = Vec::new();
    let mut i: usize = 0;
    while i < passes.len()
        invariant
            i <= passes.len(),
            out@ == passes@.take(i as int),
        decreases passes.len() - i,
    {
        match &passes[i] {
            Pass::Dots(dots) => out.push(Pass::Dots(dots.copy())),
        }
        i = i + 1;
        assert(out@ =~= passes@.take(i as int));
    }
    assert(out@ =~= passes@);
    out
}

/// What an [`Output`] sets, as plain data.
pub ghost struct OutputSet {
    pub mode: Option<OutputMode>,
    pub tint: Option<Seq<char>>,
    pub scaling: Option<Scaling>,
    pub passes: Option<Seq<Pass>>,
}

/// `a`, or `b` where there is none.
pub open spec fn either<T>(a: Option<T>, b: Option<T>) -> Option<T> {
    if a is Some {
        a
    } else {
        b
    }
}

impl OutputSet {
    pub open spec fn over(self, base: OutputSet) -> OutputSet {
        OutputSet {
            mode: either(self.mode, base.mode),
            tint: either(self.tint, base.tint),
            scaling: either(self.scaling, base.scaling),
            passes: either(self.passes, base.passes),
        }
    }

    /// Nothing set.
    pub open spec fn unset() -> OutputSet {
        OutputSet { mode: None, tint: None, scaling: None, passes: None }
    }
}

/// Laying outputs over each other may be grouped either way, and an output that sets nothing
/// changes nothing.
pub proof fn lemma_over(a: OutputSet, b: OutputSet, c: OutputSet)
    ensures
        a.over(b).over(c) == a.over(b.over(c)),
        OutputSet::unset().over(a) == a,
        a.over(OutputSet::unset()) == a,
{
}

impl View for Output {
    type V = OutputSet;

    open spec fn view(&self) -> OutputSet {
        OutputSet {
            mode: self.mode,
            tint: match self.tint {
                Some(t) => Some(t@),
                None => None,
            },
            scaling: self.scaling,
            passes: match self.passes {
                Some(p) => Some(p@),
                None => None,
            },
        }
    }
}

impl Default for Output {
    fn default() -> (r: Output)
        ensures
            r@ == OutputSet::unset(),
    {
        Output { mode: None, tint: None, scaling: None, passes: None }
    }
}

impl Output {
    /// This output with its unset fields taken from `base`.
    pub fn over(&self, base: &Output) -> (r: Output)
        ensures
            r@ == self@.over(base@),
    {
        Output {
            mode: if self.mode.is_some() {
                self.mode
            } else {
                base.mode
            },
            tint: match (&self.tint, &base.tint) {
                (Some(t), _) => Some(t.clone()),
                (None, Some(t)) => Some(t.clone()),
                (None, None) => None,
            },
            scaling: if self.scaling.is_some() {
                self.scaling
            } else {
                base.scaling
            },
            passes: match (&self.passes, &base.passes) {
                (Some(p), _) => Some(copy_passes(p)),
                (None, Some(p)) => Some(copy_passes(p)),
                (None, None) => None,
            },
        }
    }
}

/// How hosts should scale the rendered frame up to their surface.
#[derive(Clone, Copy, Debug, PartialEq, Eq, Structural)]
pub enum Scaling {
    /// Any factor, smoothly filtered.
    Smooth,
    /// Whole-number factors with nearest-neighbor sampling.
    PixelPerfect,
}

/// How the finished frame's colors are converted for the display.
#[derive(Clone, Copy, Debug, PartialEq, Eq, Structural)]
pub enum OutputMode {
    /// Full color, unchanged.
    Rgb,
    /// Luminance quantized to 4 levels (2 bits), times the tint.
    Gray2,
    /// Luminance quantized to 16 levels (4 bits), times the tint.
    Gray4,
}

/// A text style: a font the host registered, tinted and optionally outlined.
#[derive(Debug, PartialEq)]
pub struct FontStyle {
    /// Name of the font as registered by the host.
    pub file: String,
    /// Em size in canvas pixels. Required for outline fonts; not allowed for bitmap fonts.
    pub size: Option<Num>,
    /// Text color, `#RRGGBB`.
    pub color: String,
    pub border: Option<Border>,
    /// A copy of the text drawn behind it, offset.
    pub shadow: Option<Shadow>,
}

impl View for FontStyle {
    type V = FontStyle;

    open spec fn view(&self) -> FontStyle {
        *self
    }
}

/// A copy of the text drawn behind it, offset by a few pixels.
#[derive(Debug, PartialEq)]
pub struct Shadow {
    /// `#RRGGBB` or `#RRGGBBAA`
    pub color: String,
    /// How far behind the text it sits, `[x, y]` in canvas pixels.
    pub offset: [Num; 2],
}

/// A border of `width` pixels drawn outside every glyph.
#[derive(Debug, PartialEq)]
pub struct Border {
    /// `#RRGGBB`
    pub color: String,
    /// Outline width in pixels.
    pub width: u32,
}

/// Where content sits in a box: one of nine positions.
#[derive(Clone, Copy, Debug, PartialEq, Eq, Structural)]
pub enum Align {
    TopLeft,
    Top,
    TopRight,
    Left,
    Center,
    Right,
    BottomLeft,
    Bottom,
    BottomRight,
}

impl Align {
    /// At the left edge.
    pub open spec fn left(self) -> bool {
        self == Align::TopLeft || self == Align::Left || self == Align::BottomLeft
    }

    /// At the right edge.
    pub open spec fn right(self) -> bool {
        self == Align::TopRight || self == Align::Right || self == Align::BottomRight
    }

    /// At the top edge.
    pub open spec fn top(self) -> bool {
        self == Align::TopLeft || self == Align::Top || self == Align::TopRight
    }

    /// At the bottom edge.
    pub open spec fn bottom(self) -> bool {
        self == Align::BottomLeft || self == Align::Bottom || self == Align::BottomRight
    }

    /// Where an item starts along one side of its container.
    pub open spec fn start(near: bool, far: bool, item: Num, container: Num) -> Num {
        if near {
            num(0)
        } else if far {
            sum_of(container, opposite_of(item))
        } else {
            quotient_of(sum_of(container, opposite_of(item)), num(TWO))
        }
    }

    /// Offset that places a `width` x `height` item in a container.
    pub fn offset(self, width: Num, height: Num, container_w: Num, container_h: Num) -> (r: (
        Num,
        Num,
    ))
        ensures
            r.0 == Align::start(self.left(), self.right(), width, container_w),
            r.1 == Align::start(self.top(), self.bottom(), height, container_h),
    {
        let x = match self {
            Align::TopLeft | Align::Left | Align::BottomLeft => num(0),
            Align::Top | Align::Center | Align::Bottom => container_w.minus(width).over(num(TWO)),
            Align::TopRight | Align::Right | Align::BottomRight => container_w.minus(width),
        };
        let y = match self {
            Align::TopLeft | Align::Top | Align::TopRight => num(0),
            Align::Left | Align::Center | Align::Right => container_h.minus(height).over(num(TWO)),
            Align::BottomLeft | Align::Bottom | Align::BottomRight => container_h.minus(height),
        };
        (x, y)
    }

    pub fn is_left(self) -> (r: bool)
        ensures
            r == self.left(),
    {
        self == Align::TopLeft || self == Align::Left || self == Align::BottomLeft
    }
}

/// One node in the show tree.
#[derive(Debug, PartialEq)]
pub struct Layer {
    pub name: String,
    pub kind: LayerKind,
    /// Translation applied to this layer (and its subtree, for groups).
    pub x: Num,
    pub y: Num,
    /// Opacity in [0, 1], multiplied down the tree.
    pub opacity: Num,
    /// Uniform scale of the layer around its x/y origin, or around its anchor point.
    pub scale: Num,
    /// Scale along x and y on top of `scale`.
    pub scale_x: Num,
    pub scale_y: Num,
    /// Rotation in degrees, clockwise on the canvas.
    pub rotation: Num,
    /// Which point of the layer's content box sits at its x/y.
    pub anchor: Option<Align>,
    pub visible: bool,
    /// Let this layer (and a group's subtree) draw past the canvas.
    pub overflow: bool,
    /// How the layer combines with what is painted beneath it.
    pub blend: Blend,
    /// Live property bindings: `property = variable * scale + offset`.
    pub bindings: Vec<Binding>,
    /// Keyframed animations on this layer's properties.
    pub timelines: Vec<Timeline>,
}

/// How a layer's colors combine with the colors already beneath it.
#[derive(Clone, Copy, Debug, PartialEq, Eq, Structural)]
pub enum Blend {
    /// Paint over: the layer covers what is beneath.
    Normal,
    /// Sum the colors.
    Add,
    /// `1 - (1 - a)(1 - b)`.
    Screen,
    /// Product of the colors.
    Multiply,
}

#[allow(inconsistent_fields)]
#[derive(Debug, PartialEq)]
pub enum LayerKind {
    /// A container: children are positioned relative to the group and painted in order. With
    /// `clip`, children only show inside that shape.
    Group { children: Vec<Layer>, clip: Option<Shape>, gain: Num },
    /// A vector shape filled with `fill`, and outlined by `stroke` when given.
    Shape { shape: Shape, fill: Fill, stroke: Option<Stroke> },
    /// Artwork the host registered under `image`: pixels or vector artwork.
    Image {
        image: String,
        /// Destination size; the image's natural size (one cell's with a `sheet`) when omitted.
        size: Option<[Num; 2]>,
        /// Treat the image as a grid of equally sized cells and draw one.
        sheet: Option<Sheet>,
        /// Base cell index for sheets.
        frame: Num,
        /// Color the artwork is multiplied by.
        tint: Option<String>,
        /// Tile the artwork across `size` instead of stretching to it.
        repeat: Option<Tile>,
    },
    /// Text in a font style from the show's `fonts`.
    Text { text: String, font: String, size: Option<[Num; 2]>, align: Align },
    /// A row of `digits` equal cells across `size` showing `text`, one character per cell.
    Digits { digits: u32, size: [Num; 2], text: String, justify: Justify, display: DigitDisplay },
    /// A video the host registered, played the way a sound is.
    Video {
        video: Choice,
        pick: Pick,
        size: Option<[Num; 2]>,
        trigger: Triggers,
        autoplay: bool,
        looping: bool,
        delay: Num,
        repeat: Option<Num>,
        on_end: Option<String>,
        stop: Triggers,
        rest: Num,
        retrigger: Retrigger,
        voices: u32,
        gain: Num,
        bus: Option<String>,
        duck: Option<Duck>,
    },
    /// A sound the host registered, played the way a timeline is.
    Audio {
        sound: Choice,
        pick: Pick,
        trigger: Triggers,
        autoplay: bool,
        looping: bool,
        delay: Num,
        repeat: Option<Num>,
        on_end: Option<String>,
        stop: Triggers,
        rest: Num,
        retrigger: Retrigger,
        voices: u32,
        gain: Num,
        bus: Option<String>,
        duck: Option<Duck>,
    },
}

/// Which registry the content of a playhead comes from.
#[derive(Clone, Copy, Debug, PartialEq, Eq, Structural)]
pub enum MediaKind {
    Sound,
    Video,
}

/// The playhead of a layer whose content has a length: what starts it, how long it goes on and
/// what it says when it ends. A sound and a video carry the same one.
#[derive(Debug, PartialEq)]
pub struct Media<'a> {
    pub kind: MediaKind,
    /// The assets the host registered, by name.
    pub names: &'a Choice,
    /// Which of `names` a play uses.
    pub pick: Pick,
    pub trigger: &'a Triggers,
    pub stop: &'a Triggers,
    pub autoplay: bool,
    pub looping: bool,
    pub delay: Num,
    pub repeat: Option<Num>,
    pub on_end: &'a Option<String>,
    /// What a trigger does while it already plays.
    pub retrigger: Retrigger,
    /// Least seconds between plays; 0 never drops a trigger.
    pub rest: Num,
    /// How many plays may run at once.
    pub voices: u32,
}

/// What a [`Media`] describes, by value.
pub ghost struct MediaInfo {
    pub kind: MediaKind,
    pub names: Choice,
    pub pick: Pick,
    pub trigger: Triggers,
    pub stop: Triggers,
    pub autoplay: bool,
    pub looping: bool,
    pub delay: Num,
    pub repeat: Option<Num>,
    pub on_end: Option<String>,
    pub retrigger: Retrigger,
    pub rest: Num,
    pub voices: u32,
}

impl<'a> View for Media<'a> {
    type V = MediaInfo;

    open spec fn view(&self) -> MediaInfo {
        MediaInfo {
            kind: self.kind,
            names: *self.names,
            pick: self.pick,
            trigger: *self.trigger,
            stop: *self.stop,
            autoplay: self.autoplay,
            looping: self.looping,
            delay: self.delay,
            repeat: self.repeat,
            on_end: *self.on_end,
            retrigger: self.retrigger,
            rest: self.rest,
            voices: self.voices,
        }
    }
}

impl MediaInfo {
    /// How many times the content plays.
    pub open spec fn plays(self) -> Num {
        max_of(
            match self.repeat {
                Some(n) => n,
                None => num(ONE),
            },
            num(0),
        )
    }

    /// The delay, never negative.
    pub open spec fn wait(self) -> Num {
        max_of(self.delay, num(0))
    }
}

impl<'a> Media<'a> {
    pub(crate) fn plays(&self) -> (r: Num)
        ensures
            r == self@.plays(),
    {
        self.repeat.unwrap_or(num(ONE)).max(num(0))
    }

    pub(crate) fn wait(&self) -> (r: Num)
        ensures
            r == self@.wait(),
    {
        self.delay.max(num(0))
    }
}

/// What a layer's trigger does while the layer is already playing.
#[derive(Clone, Copy, Debug, PartialEq, Eq, Structural)]
pub enum Retrigger {
    /// Start over: the play so far stops.
    Restart,
    /// Start another play on top, up to the layer's `voices`.
    Overlap,
    /// Let the play finish; the trigger does nothing.
    Ignore,
    /// Let the play finish, then play, up to `voices` of them waiting at once.
    Queue,
}

/// A sprite sheet layout: cells of `cell` `[width, height]` pixels, `columns` per row.
#[derive(Clone, Copy, Debug, PartialEq, Eq)]
pub struct Sheet {
    pub cell: [u32; 2],
    pub columns: u32,
}

/// Which end of a digit row its text sits against.
#[derive(Clone, Copy, Debug, PartialEq, Eq, Structural)]
pub enum Justify {
    Left,
    /// As scores are shown: the last character in the last cell.
    Right,
}

/// A row of cells carrying a ring of symbols, each rolling to the symbol the layer's `text`
/// asks of it.
#[derive(Debug, PartialEq)]
pub struct Reel {
    /// The characters naming the ring's symbols, in the order they pass by.
    pub charset: String,
    /// Font style the symbols are drawn in, when `cells` does not put artwork on the ring.
    pub font: Option<String>,
    /// What each symbol looks like, one entry per character of `charset`.
    pub cells: Option<ReelCells>,
    /// Seconds one move takes; above 0.
    pub duration: Num,
    /// How a step progresses.
    pub ease: Easing,
    /// Which way round the ring a cell travels.
    pub direction: Option<Direction>,
    /// How far a cell travels in one move, in symbols; the whole journey when omitted.
    pub step: Option<Num>,
    /// Extra whole turns of the ring a cell makes before it lands.
    pub turns: u32,
    /// How many symbols of the ring the cell shows at once.
    pub window: u32,
    /// Motion added on top of a move, in symbols.
    pub offset: Vec<Key>,
    /// Seconds each cell waits behind the one to its right.
    pub stagger: Num,
    /// What sets the row spinning.
    pub spin: Triggers,
}

/// What a reel's symbols are drawn as.
#[derive(Debug, PartialEq)]
pub enum ReelCells {
    /// Vector artwork the host registered, by name, one per symbol.
    Vectors(Vec<String>),
    /// Images the host registered, by name, one per symbol.
    Images(Vec<String>),
}

impl ReelCells {
    pub open spec fn names(self) -> Seq<String> {
        match self {
            ReelCells::Vectors(names) => names@,
            ReelCells::Images(names) => names@,
        }
    }

    /// How many symbols the artwork covers.
    pub fn len(&self) -> (r: usize)
        ensures
            r == self.names().len(),
    {
        match self {
            ReelCells::Vectors(names) => names.len(),
            ReelCells::Images(names) => names.len(),
        }
    }

    pub fn is_empty(&self) -> (r: bool)
        ensures
            r == (self.names().len() == 0),
    {
        self.len() == 0
    }

    /// The asset drawn for symbol `index` of the ring.
    pub fn at(&self, index: usize) -> (r: Option<&str>)
        ensures
            match r {
                Some(name) => index < self.names().len() && name@ == self.names()[index as int]@,
                None => index >= self.names().len(),
            },
    {
        match self {
            ReelCells::Vectors(names) => {
                if index < names.len() {
                    Some(names[index].as_str())
                } else {
                    None
                }
            },
            ReelCells::Images(names) => {
                if index < names.len() {
                    Some(names[index].as_str())
                } else {
                    None
                }
            },
        }
    }
}

/// Turns added in the direction of travel.
pub open spec fn onward(step: Num, turns: Num) -> Num {
    if less(step, num(0)) {
        opposite_of(turns)
    } else {
        turns
    }
}

impl Reel {
    /// How many symbols the ring holds, at least one.
    pub open spec fn ring_size(self) -> Num {
        crate::num::from_int(
            if self.charset@.len() > 1 {
                self.charset@.len() as int
            } else {
                1
            },
        )
    }

    /// The way a cell standing at `from` travels to `character`, without the extra turns.
    pub open spec fn way(self, from: Num, character: Num) -> Num {
        let ring = self.ring_size();
        let forward = rem_euclid_of(sum_of(character, opposite_of(from)), ring);
        let direction = match self.direction {
            Some(d) => d,
            None => Direction::Shortest,
        };
        if direction == Direction::Backward || (direction == Direction::Shortest && less(
            quotient_of(ring, num(TWO)),
            forward,
        )) {
            sum_of(forward, opposite_of(ring))
        } else {
            forward
        }
    }

    /// Where a cell standing at `from` ends up to show `character`.
    pub open spec fn landing(self, from: Num, character: Num) -> Num {
        let step = self.way(from, character);
        let turns = product_of(crate::num::from_int(self.turns as int), self.ring_size());
        sum_of(sum_of(from, step), onward(step, turns))
    }

    /// The characters naming the ring's symbols, in order.
    pub fn characters(&self) -> (r: Vec<char>)
        ensures
            r@ == self.charset@,
    {
        chars_of(self.charset.as_str())
    }

    /// How many symbols the ring holds.
    pub fn ring(&self) -> (r: Num)
        ensures
            r == self.ring_size(),
    {
        let n: usize = self.charset.as_str().unicode_len();
        if n > 1 {
            Num::from_u64(n as u64)
        } else {
            Num::from_u64(1)
        }
    }

    /// How a cell travels from one symbol to another: not around the ring, so a journey can
    /// be longer than one turn.
    pub open spec fn rolling(self) -> Moves {
        Moves {
            duration: self.duration,
            ease: self.ease,
            wrap: None,
            direction: None,
            step: self.step,
            offset: self.offset@,
        }
    }

    /// How a cell travels from one symbol to another. Symbols are counted straight, not
    /// around the ring.
    pub fn roll(&self) -> (r: Transition)
        ensures
            r.moves() == self.rolling(),
            r.model is None && r.kelvin is None && r.heating is None && r.cooling is None,
    {
        Transition {
            duration: self.duration,
            model: None,
            kelvin: None,
            heating: None,
            cooling: None,
            ease: self.ease,
            wrap: None,
            direction: None,
            step: self.step,
            offset: copy_keys(&self.offset),
        }
    }

    /// Where a cell standing at `from` travels to show the symbol that `character` names: the
    /// way round `direction` asks for, plus the turns it takes before landing.
    pub fn travel(&self, from: Num, character: Num) -> (r: Num)
        ensures
            r == self.landing(from, character),
    {
        let ring = self.ring();
        let forward = character.minus(from).rem_euclid(ring);
        let step = match self.direction.unwrap_or(Direction::Shortest) {
            Direction::Backward => forward.minus(ring),
            Direction::Shortest => {
                if ring.over(num(TWO)).lt(forward) {
                    forward.minus(ring)
                } else {
                    forward
                }
            },
            Direction::Forward => forward,
        };
        let turns = Num::from_u64(self.turns as u64).times(ring);
        from.plus(step).plus(
            if step.lt(num(0)) {
                turns.neg()
            } else {
                turns
            },
        )
    }
}

/// How the cells of a digit row are drawn.
#[derive(Debug, PartialEq)]
pub enum DigitDisplay {
    /// A segment display: lit segments in `fill`, and the dark ones in `unlit` when given.
    Segments {
        style: SegmentStyle,
        fill: String,
        unlit: Option<String>,
        /// Degrees the cells lean, as a shear.
        slant: Num,
        /// Segment width as a share of the cell's shorter side.
        thickness: Option<Num>,
        /// A halo around lit segments, in their own color.
        glow: Option<Glow>,
    },
    /// Cells that roll through a ring of characters.
    Reel(Reel),
}

/// A halo around the lit segments of a display: the segments again, a few times, each time
/// grown and fainter, as one picture. Where two halos meet the brighter one shows.
#[derive(Clone, Copy, Debug, PartialEq, Eq, Structural)]
pub struct Glow {
    /// How far it reaches beyond the segment, as a share of the cell's width.
    pub size: Num,
    /// How bright it is where it leaves the segment, 0 to 1.
    pub strength: Num,
}

/// Segment layout of a segment display.
#[derive(Clone, Copy, Debug, PartialEq, Eq, Structural)]
pub enum SegmentStyle {
    /// 14 segments plus dot: letters and digits.
    Alpha14,
    /// 7 segments plus dot: digits and `-`.
    Numeric7,
}

/// Vector shapes, in the layer's local coordinate space.
#[derive(Debug, PartialEq)]
pub enum Shape {
    Rect {
        /// `[x, y, width, height]`
        rect: [Num; 4],
        /// Corner radius, clamped to half the shorter side.
        radius: Option<Num>,
    },
    Circle {
        /// `[cx, cy, radius]`
        circle: [Num; 3],
    },
    Path {
        /// SVG path data: lines, curves and arcs.
        path: PathData,
    },
}

impl Shape {
    pub open spec fn corner(rect: [Num; 4], radius: Option<Num>) -> Num {
        let wanted = max_of(
            match radius {
                Some(r) => r,
                None => num(0),
            },
            num(0),
        );
        min_of(
            min_of(wanted, quotient_of(abs_of(rect[2]), num(TWO))),
            quotient_of(abs_of(rect[3]), num(TWO)),
        )
    }

    /// The shape that a description with these parts gives: exactly one of rect, circle and
    /// path, and a radius that only a rect has a use for.
    pub open spec fn described(
        rect: Option<[Num; 4]>,
        radius: Option<Num>,
        circle: Option<[Num; 3]>,
        path: Option<PathData>,
    ) -> Result<Shape, Seq<char>> {
        match (rect, circle, path) {
            (Some(rect), None, None) => Ok(Shape::Rect { rect, radius }),
            (None, Some(circle), None) => Ok(Shape::Circle { circle }),
            (None, None, Some(path)) => Ok(Shape::Path { path }),
            (None, None, None) => Err("a shape needs one of rect, circle or path"@),
            _ => Err("a shape takes one of rect, circle or path, not several"@),
        }
    }

    /// A shape from the parts of its description, or what is wrong with them.
    pub fn from_parts(
        rect: Option<[Num; 4]>,
        radius: Option<Num>,
        circle: Option<[Num; 3]>,
        path: Option<PathData>,
    ) -> (r: Result<Shape, String>)
        ensures
            match (r, Shape::described(rect, radius, circle, path)) {
                (Ok(shape), Ok(wanted)) => shape == wanted,
                (Err(e), Err(what)) => e@ == what,
                _ => false,
            },
    {
        match (rect, circle, path) {
            (Some(rect), None, None) => Ok(Shape::Rect { rect, radius }),
            (None, Some(circle), None) => Ok(Shape::Circle { circle }),
            (None, None, Some(path)) => Ok(Shape::Path { path }),
            (None, None, None) => Err(owned("a shape needs one of rect, circle or path")),
            _ => Err(owned("a shape takes one of rect, circle or path, not several")),
        }
    }

    /// A rect's corner radius, clamped to what its size allows.
    pub fn corner_radius(rect: [Num; 4], radius: Option<Num>) -> (r: Num)
        ensures
            r == Shape::corner(rect, radius),
    {
        radius.unwrap_or(num(0)).max(num(0)).min(rect[2].abs().over(num(TWO))).min(
            rect[3].abs().over(num(TWO)),
        )
    }
}

/// What a shape is filled with: one color, or a gradient.
#[derive(Debug, PartialEq)]
pub enum Fill {
    /// `#RRGGBB` or `#RRGGBBAA`.
    Color(String),
    Gradient(Gradient),
}

impl Default for Fill {
    fn default() -> (r: Fill)
        ensures
            r matches Fill::Color(c) && c@ == "#FFFFFF"@,
    {
        Fill::Color(owned("#FFFFFF"))
    }
}

/// A smooth run of colors across a shape, in the shape's own space.
#[derive(Debug, PartialEq)]
pub enum Gradient {
    /// Runs along the line from `from` to `to`, and holds its end colors beyond either end.
    Linear { from: [Num; 2], to: [Num; 2], stops: Vec<Stop> },
    /// Runs out from `center` to `radius`, and holds its last color beyond it.
    Radial { center: [Num; 2], radius: Num, stops: Vec<Stop> },
}

impl Gradient {
    pub open spec fn colors(self) -> Seq<Stop> {
        match self {
            Gradient::Linear { stops, .. } => stops@,
            Gradient::Radial { stops, .. } => stops@,
        }
    }

    pub fn stops(&self) -> (r: &[Stop])
        ensures
            r@ == self.colors(),
    {
        match self {
            Gradient::Linear { stops, .. } => stops.as_slice(),
            Gradient::Radial { stops, .. } => stops.as_slice(),
        }
    }
}

/// One color of a gradient, `at` a fraction of the way along it.
#[derive(Debug, PartialEq)]
pub struct Stop {
    /// 0 at the start of the gradient, 1 at its end.
    pub at: Num,
    /// `#RRGGBB` or `#RRGGBBAA`.
    pub color: String,
}

/// Step this layer back while something on another bus is sounding.
#[derive(Debug, PartialEq)]
pub struct Duck {
    /// The bus to listen to.
    pub under: String,
    /// Gain multiplier while that bus sounds.
    pub to: Num,
    /// Seconds to go down.
    pub attack: Num,
    /// Seconds to come back up once the bus falls silent.
    pub release: Num,
}

/// Repeat a layer's content across its `size` instead of stretching it to fit.
#[derive(Clone, Copy, Debug, PartialEq)]
pub struct Tile {
    /// Size of one tile in the layer's units; the content's own size when omitted.
    pub size: Option<[Num; 2]>,
    /// Where the pattern starts, in the layer's units.
    pub offset: [Num; 2],
}

/// An outline drawn along a shape's edge, centered on it.
#[derive(Debug, PartialEq)]
pub struct Stroke {
    /// `#RRGGBB` or `#RRGGBBAA`
    pub color: String,
    /// Line width in the layer's units, above 0.
    pub width: Num,
}

/// An animatable layer property.
#[derive(Clone, Copy, Debug, PartialEq, Eq, Structural)]
pub enum Property {
    X,
    Y,
    Opacity,
    Scale,
    ScaleX,
    ScaleY,
    Rotation,
    /// The text of a text layer; bindable, not animatable.
    Text,
    /// The font style of a text layer; bindable, not animatable.
    Font,
    /// The video a video layer plays; bindable, not animatable.
    Video,
    /// The sound an audio layer plays; bindable, not animatable.
    Sound,
    /// Sprite sheet cell of an image layer.
    Frame,
    /// Where a tiled image's pattern starts, along x and y.
    TileX,
    TileY,
    /// Loudness of an audio layer or a group's subtree.
    Gain,
    /// Whether the layer (and its subtree) shows and sounds; bindable, not animatable.
    Visible,
    /// The color an image layer is multiplied by; bindable, not animatable.
    Tint,
}

impl Property {
    pub open spec fn numeric(self) -> bool {
        self != Property::Text && self != Property::Font && self != Property::Visible && self
            != Property::Tint && self != Property::Video && self != Property::Sound
    }

    /// Whether the property holds a number; only those can be keyframed.
    pub fn is_numeric(self) -> (r: bool)
        ensures
            r == self.numeric(),
    {
        self != Property::Text && self != Property::Font && self != Property::Visible && self
            != Property::Tint && self != Property::Video && self != Property::Sound
    }
}

impl LayerKind {
    /// What plays in a layer of this kind.
    pub open spec fn playhead(self) -> Option<MediaInfo> {
        match self {
            LayerKind::Audio {
                sound,
                pick,
                trigger,
                autoplay,
                looping,
                delay,
                repeat,
                on_end,
                stop,
                rest,
                retrigger,
                voices,
                ..
            } => Some(
                MediaInfo {
                    kind: MediaKind::Sound,
                    names: sound,
                    pick,
                    trigger,
                    stop,
                    autoplay,
                    looping,
                    delay,
                    repeat,
                    on_end,
                    retrigger,
                    rest,
                    voices,
                },
            ),
            LayerKind::Video {
                video,
                pick,
                trigger,
                autoplay,
                looping,
                delay,
                repeat,
                on_end,
                stop,
                rest,
                retrigger,
                voices,
                ..
            } => Some(
                MediaInfo {
                    kind: MediaKind::Video,
                    names: video,
                    pick,
                    trigger,
                    stop,
                    autoplay,
                    looping,
                    delay,
                    repeat,
                    on_end,
                    retrigger,
                    rest,
                    voices,
                },
            ),
            _ => None,
        }
    }

    /// The playhead of this layer, when its content has a length: a sound or a video.
    pub fn media(&self) -> (r: Option<Media<'_>>)
        ensures
            match r {
                Some(m) => self.playhead() == Some(m@),
                None => self.playhead() is None,
            },
    {
        match self {
            LayerKind::Audio {
                sound,
                pick,
                trigger,
                autoplay,
                looping,
                delay,
                repeat,
                on_end,
                stop,
                rest,
                retrigger,
                voices,
                ..
            } => Some(
                Media {
                    kind: MediaKind::Sound,
                    names: sound,
                    pick: *pick,
                    trigger,
                    stop,
                    autoplay: *autoplay,
                    looping: *looping,
                    delay: *delay,
                    repeat: *repeat,
                    on_end,
                    retrigger: *retrigger,
                    rest: *rest,
                    voices: *voices,
                },
            ),
            LayerKind::Video {
                video,
                pick,
                trigger,
                autoplay,
                looping,
                delay,
                repeat,
                on_end,
                stop,
                rest,
                retrigger,
                voices,
                ..
            } => Some(
                Media {
                    kind: MediaKind::Video,
                    names: video,
                    pick: *pick,
                    trigger,
                    stop,
                    autoplay: *autoplay,
                    looping: *looping,
                    delay: *delay,
                    repeat: *repeat,
                    on_end,
                    retrigger: *retrigger,
                    rest: *rest,
                    voices: *voices,
                },
            ),
            _ => None,
        }
    }
}

impl Layer {
    /// The layers nested in this one.
    pub open spec fn nested(self) -> Seq<Layer> {
        match self.kind {
            LayerKind::Group { children, .. } => children@,
            _ => Seq::empty(),
        }
    }

    /// The layers nested in this one: a group's children, else none.
    pub fn children(&self) -> (r: &[Layer])
        ensures
            r@ == self.nested(),
    {
        match &self.kind {
            LayerKind::Group { children, .. } => children.as_slice(),
            _ => &[],
        }
    }

    /// The property's value as authored on this layer.
    pub open spec fn authored(self, property: Property) -> Option<Held> {
        match (property, self.kind) {
            (Property::X, _) => Some(Held::Number(self.x)),
            (Property::Y, _) => Some(Held::Number(self.y)),
            (Property::Opacity, _) => Some(Held::Number(self.opacity)),
            (Property::Visible, _) => Some(Held::Bool(self.visible)),
            (Property::Scale, _) => Some(Held::Number(self.scale)),
            (Property::ScaleX, _) => Some(Held::Number(self.scale_x)),
            (Property::ScaleY, _) => Some(Held::Number(self.scale_y)),
            (Property::Rotation, _) => Some(Held::Number(self.rotation)),
            (Property::Text, LayerKind::Text { text, .. }) => Some(Held::Text(text@)),
            (Property::Text, LayerKind::Digits { text, .. }) => Some(Held::Text(text@)),
            (Property::Font, LayerKind::Text { font, .. }) => Some(Held::Text(font@)),
            (Property::Video, LayerKind::Video { video, .. }) => Some(Held::Text(video.name_at(0))),
            (Property::Sound, LayerKind::Audio { sound, .. }) => Some(Held::Text(sound.name_at(0))),
            (Property::Frame, LayerKind::Image { frame, .. }) => Some(Held::Number(frame)),
            (Property::TileX, LayerKind::Image { repeat: Some(tile), .. }) => Some(
                Held::Number(tile.offset[0]),
            ),
            (Property::TileY, LayerKind::Image { repeat: Some(tile), .. }) => Some(
                Held::Number(tile.offset[1]),
            ),
            (Property::Tint, LayerKind::Image { tint, .. }) => Some(
                Held::Text(
                    match tint {
                        Some(t) => t@,
                        None => Seq::empty(),
                    },
                ),
            ),
            (Property::Gain, LayerKind::Group { gain, .. }) => Some(Held::Number(gain)),
            (Property::Gain, LayerKind::Audio { gain, .. }) => Some(Held::Number(gain)),
            (Property::Gain, LayerKind::Video { gain, .. }) => Some(Held::Number(gain)),
            _ => None,
        }
    }

    /// The property's value as authored on this layer, or `None` when this kind of layer does
    /// not have the property.
    pub fn base_value(&self, property: Property) -> (r: Option<Value>)
        ensures
            match r {
                Some(v) => self.authored(property) == Some(v@),
                None => self.authored(property) is None,
            },
    {
        match (property, &self.kind) {
            (Property::X, _) => Some(Value::Number(self.x)),
            (Property::Y, _) => Some(Value::Number(self.y)),
            (Property::Opacity, _) => Some(Value::Number(self.opacity)),
            (Property::Visible, _) => Some(Value::Bool(self.visible)),
            (Property::Scale, _) => Some(Value::Number(self.scale)),
            (Property::ScaleX, _) => Some(Value::Number(self.scale_x)),
            (Property::ScaleY, _) => Some(Value::Number(self.scale_y)),
            (Property::Rotation, _) => Some(Value::Number(self.rotation)),
            (Property::Text, LayerKind::Text { text, .. }) => Some(Value::Text(text.clone())),
            (Property::Text, LayerKind::Digits { text, .. }) => Some(Value::Text(text.clone())),
            (Property::Font, LayerKind::Text { font, .. }) => Some(Value::Text(font.clone())),
            (Property::Video, LayerKind::Video { video, .. }) => Some(
                Value::Text(owned(video.first())),
            ),
            (Property::Sound, LayerKind::Audio { sound, .. }) => Some(
                Value::Text(owned(sound.first())),
            ),
            (Property::Frame, LayerKind::Image { frame, .. }) => Some(Value::Number(*frame)),
            (Property::TileX, LayerKind::Image { repeat: Some(tile), .. }) => Some(
                Value::Number(tile.offset[0]),
            ),
            (Property::TileY, LayerKind::Image { repeat: Some(tile), .. }) => Some(
                Value::Number(tile.offset[1]),
            ),
            (Property::Tint, LayerKind::Image { tint, .. }) => Some(
                Value::Text(
                    match tint {
                        Some(t) => t.clone(),
                        None => String::new(),
                    },
                ),
            ),
            (Property::Gain, LayerKind::Group { gain, .. }) => Some(Value::Number(*gain)),
            (Property::Gain, LayerKind::Audio { gain, .. }) => Some(Value::Number(*gain)),
            (Property::Gain, LayerKind::Video { gain, .. }) => Some(Value::Number(*gain)),
            _ => None,
        }
    }
}

/// A condition on a variable.
#[derive(Debug, PartialEq)]
pub struct When {
    pub variable: String,
    /// Replace the variable's value by looking it up here.
    pub map: Option<NameMap<Value>>,
    /// Value for variable values `map` does not list.
    pub default: Option<Value>,
    /// A level: the value counts as true at or above it.
    pub threshold: Option<Num>,
}

/// A condition a timeline runs under, rather than starts on.
pub type While = When;

/// A permanent wiring of a property to a variable, evaluated every frame.
#[derive(Debug, PartialEq)]
pub struct Binding {
    pub property: Property,
    pub variable: String,
    pub scale: Num,
    pub offset: Num,
    /// How many decimal places a number shows, when it becomes text.
    pub decimals: Option<u32>,
    /// How a number becomes text.
    pub format: NumberFormat,
    /// Words in front of the value.
    pub prefix: String,
    /// Words behind the value.
    pub suffix: String,
    /// Replace the variable's value by looking it up here.
    pub map: Option<NameMap<Value>>,
    /// Value for variable values `map` does not list.
    pub default: Option<Value>,
    /// A level: the value becomes 1 at or above it and 0 below.
    pub threshold: Option<Num>,
    /// Seconds a new value has to hold before it reaches the property.
    pub debounce: Option<Num>,
    /// Bend the value against the input instead of scaling it straight.
    pub curve: Vec<Key>,
    /// Ease toward a new value instead of jumping to it.
    pub transition: Option<Transition>,
}

/// How a bound property moves when its binding's value changes.
#[derive(Debug, PartialEq)]
pub struct Transition {
    /// Seconds a change takes; above 0.
    pub duration: Num,
    /// Follow a physical model instead of easing over a duration.
    pub model: Option<Model>,
    /// Temperature of the filament at full power, in kelvin.
    pub kelvin: Option<Num>,
    /// How quickly the filament heats, in seconds.
    pub heating: Option<Num>,
    /// How quickly the filament cools, in seconds.
    pub cooling: Option<Num>,
    pub ease: Easing,
    /// Size of the ring the value lives on; above 0.
    pub wrap: Option<Num>,
    /// Which way round a wrapped value goes; needs `wrap`.
    pub direction: Option<Direction>,
    /// Size of one move, above 0.
    pub step: Option<Num>,
    /// Motion added on top of a move, along its direction of travel.
    pub offset: Vec<Key>,
}

/// Which way round a wrapped [`Transition`] goes.
#[derive(Clone, Copy, Debug, PartialEq, Eq, Structural)]
pub enum Direction {
    /// Whichever way is shorter; forward on a tie.
    Shortest,
    /// Always toward higher values.
    Forward,
    /// Always toward lower values.
    Backward,
}

/// How a value moves from one number to another: the part of a [`Transition`] that a
/// [`Reel`] shares.
pub ghost struct Moves {
    pub duration: Num,
    pub ease: Easing,
    pub wrap: Option<Num>,
    pub direction: Option<Direction>,
    pub step: Option<Num>,
    pub offset: Seq<Key>,
}

/// -1, 1, or what is not a number.
pub open spec fn sign_of(x: Num) -> Num {
    if x.nan() {
        x
    } else if x.negative() {
        opposite_of(num(ONE))
    } else {
        num(ONE)
    }
}

pub open spec fn last_time(keys: Seq<Key>) -> Num {
    if keys.len() == 0 {
        num(0)
    } else {
        keys.last().t
    }
}

impl Moves {
    /// Seconds one move takes.
    pub open spec fn period(self) -> Num {
        max_of(self.duration, last_time(self.offset))
    }

    /// A value folded onto the ring, where there is one.
    pub open spec fn on_ring(self, v: Num) -> Num {
        match self.wrap {
            Some(wrap) => rem_euclid_of(v, wrap),
            None => v,
        }
    }

    /// The signed distance travelled.
    pub open spec fn delta(self, start: Num, target: Num) -> Num {
        let straight = sum_of(target, opposite_of(start));
        match self.wrap {
            None => straight,
            Some(wrap) => {
                let forward = rem_euclid_of(straight, wrap);
                match self.direction {
                    Some(Direction::Forward) => forward,
                    Some(Direction::Backward) => if equal(forward, num(0)) {
                        num(0)
                    } else {
                        sum_of(forward, opposite_of(wrap))
                    },
                    _ => if less(quotient_of(wrap, num(TWO)), forward) {
                        sum_of(forward, opposite_of(wrap))
                    } else {
                        forward
                    },
                }
            },
        }
    }

    /// The length of one move of a change over `distance`.
    pub open spec fn unit(self, distance: Num) -> Num {
        match self.step {
            Some(step) => if less(step, distance) {
                step
            } else {
                distance
            },
            None => distance,
        }
    }

    /// How many moves a change over `distance` takes.
    pub open spec fn count(self, distance: Num) -> Num {
        let unit = self.unit(distance);
        if less(num(0), unit) {
            max_of(
                opposite_of(
                    crate::num::floor_of(
                        opposite_of(
                            sum_of(quotient_of(distance, unit), opposite_of(num(MOVE_SLACK))),
                        ),
                    ),
                ),
                num(ONE),
            )
        } else {
            num(ONE)
        }
    }

    /// The value `elapsed` seconds into a change from `start` to `target`.
    #[verifier::opaque]
    pub open spec fn value(self, start: Num, target: Num, elapsed: Num) -> Num {
        let delta = self.delta(start, target);
        let distance = abs_of(delta);
        let unit = self.unit(distance);
        let moves = self.count(distance);
        let period = self.period();
        if equal(distance, num(0)) || at_most(product_of(moves, period), elapsed) {
            self.on_ring(target)
        } else {
            let past = max_of(elapsed, num(0));
            let index = min_of(
                crate::num::floor_of(quotient_of(past, period)),
                sum_of(moves, opposite_of(num(ONE))),
            );
            let local = sum_of(past, opposite_of(product_of(index, period)));
            let covered = product_of(index, unit);
            let length = min_of(sum_of(distance, opposite_of(covered)), unit);
            let along = sum_of(
                covered,
                product_of(length, self.ease.eased(quotient_of(local, self.duration))),
            );
            let extra = match sampled(self.offset, local) {
                Some(v) => v,
                None => num(0),
            };
            self.on_ring(sum_of(start, product_of(sign_of(delta), sum_of(along, extra))))
        }
    }
}

/// A change ends exactly on its target, folded onto its ring.
pub proof fn lemma_move_arrives(m: Moves, start: Num, target: Num, elapsed: Num)
    requires
        at_most(product_of(m.count(abs_of(m.delta(start, target))), m.period()), elapsed),
    ensures
        m.value(start, target, elapsed) == m.on_ring(target),
{
    reveal(Moves::value);
}

fn signum(x: Num) -> (r: Num)
    ensures
        r == sign_of(x),
{
    if x.is_nan() {
        x
    } else if x.is_negative() {
        num(ONE).neg()
    } else {
        num(ONE)
    }
}

fn copy_keys(keys: &Vec<Key>) -> (r: Vec<Key>)
    ensures
        r@ == keys@,
{
    let mut out: Vec<Key> = Vec::new();
    let mut i: usize = 0;
    while i < keys.len()
        invariant
            i <= keys.len(),
            out@ == keys@.take(i as int),
        decreases keys.len() - i,
    {
        out.push(keys[i]);
        i = i + 1;
        assert(out@ =~= keys@.take(i as int));
    }
    assert(out@ =~= keys@);
    out
}

fn keys_end(keys: &Vec<Key>) -> (r: Num)
    ensures
        r == last_time(keys@),
{
    if keys.len() == 0 {
        num(0)
    } else {
        keys[keys.len() - 1].t
    }
}

impl Transition {
    pub open spec fn moves(self) -> Moves {
        Moves {
            duration: self.duration,
            ease: self.ease,
            wrap: self.wrap,
            direction: self.direction,
            step: self.step,
            offset: self.offset@,
        }
    }

    /// Seconds one move takes: `duration`, or the `offset` when it runs longer.
    pub fn move_time(&self) -> (r: Num)
        ensures
            r == self.moves().period(),
    {
        self.duration.max(keys_end(&self.offset))
    }

    /// The value `elapsed` seconds into a change from `start` to `target`.
    pub fn value_at(&self, start: Num, target: Num, elapsed: Num) -> (r: Num)
        ensures
            r == self.moves().value(start, target, elapsed),
    {
        let ghost m = self.moves();
        proof {
            reveal(Moves::value);
        }
        let straight = target.minus(start);
        let delta = match self.wrap {
            None => straight,
            Some(wrap) => {
                let forward = straight.rem_euclid(wrap);
                match self.direction.unwrap_or(Direction::Shortest) {
                    Direction::Shortest => {
                        if wrap.over(num(TWO)).lt(forward) {
                            forward.minus(wrap)
                        } else {
                            forward
                        }
                    },
                    Direction::Forward => forward,
                    Direction::Backward => {
                        if forward.same(num(0)) {
                            num(0)
                        } else {
                            forward.minus(wrap)
                        }
                    },
                }
            },
        };
        assert(delta == m.delta(start, target));
        let distance = delta.abs();
        let unit = match self.step {
            Some(step) => {
                if step.lt(distance) {
                    step
                } else {
                    distance
                }
            },
            None => distance,
        };
        let moves = if num(0).lt(unit) {
            distance.over(unit).minus(num(MOVE_SLACK)).ceil().max(num(ONE))
        } else {
            num(ONE)
        };
        assert(moves == m.count(distance));
        let end = keys_end(&self.offset);
        let period = self.duration.max(end);
        if distance.same(num(0)) || moves.times(period).le(elapsed) {
            return match self.wrap {
                Some(wrap) => target.rem_euclid(wrap),
                None => target,
            };
        }
        let past = elapsed.max(num(0));
        let index = past.over(period).floor().min(moves.minus(num(ONE)));
        let local = past.minus(index.times(period));
        let covered = index.times(unit);
        let length = distance.minus(covered).min(unit);
        let along = covered.plus(length.times(self.ease.apply(local.over(self.duration))));
        let extra = sample_keys(&self.offset, local).unwrap_or(num(0));
        let v = start.plus(signum(delta).times(along.plus(extra)));
        match self.wrap {
            Some(wrap) => v.rem_euclid(wrap),
            None => v,
        }
    }
}

/// A keyframed animation over one or more properties of its layer.
#[derive(Debug, PartialEq)]
pub struct Timeline {
    pub name: String,
    /// What (re)starts this timeline.
    pub trigger: Triggers,
    /// A variable condition that (re)starts it on the rising edge.
    pub when: Option<When>,
    /// A variable condition it runs under.
    pub whilst: Option<While>,
    pub autoplay: bool,
    /// Repeat forever.
    pub looping: bool,
    /// Seconds to wait after starting before the first key plays.
    pub delay: Num,
    /// Number of plays; once when omitted.
    pub repeat: Option<Num>,
    /// Trigger fired when the timeline finishes.
    pub on_end: Option<String>,
    /// Keep the last value instead of giving the properties back.
    pub hold: bool,
    pub tracks: Vec<Track>,
}

#[derive(Debug, PartialEq)]
pub struct Track {
    pub property: Property,
    pub keys: Vec<Key>,
}

/// A physical model a transition follows instead of an ease.
#[derive(Clone, Copy, Debug, PartialEq, Eq, Structural)]
pub enum Model {
    /// A glowing filament.
    Incandescent,
}

/// A keyframe: at time `t` (seconds) the property reaches value `v`, approached with `ease`
/// from the previous key.
#[derive(Clone, Copy, Debug, PartialEq, Eq, Structural)]
pub struct Key {
    pub t: Num,
    pub v: Num,
    pub ease: Easing,
}

/// The first key from `from` on that lies after `time`.
pub open spec fn first_after(keys: Seq<Key>, time: Num, from: int) -> Option<int>
    decreases keys.len() - from,
{
    if from < 0 || from >= keys.len() {
        None
    } else if less(time, keys[from].t) {
        Some(from)
    } else {
        first_after(keys, time, from + 1)
    }
}

/// The value between two keys.
pub open spec fn between(a: Key, b: Key, time: Num) -> Num {
    let span = sum_of(b.t, opposite_of(a.t));
    let t = if at_most(span, num(0)) {
        num(ONE)
    } else {
        quotient_of(sum_of(time, opposite_of(a.t)), span)
    };
    sum_of(a.v, product_of(sum_of(b.v, opposite_of(a.v)), b.ease.eased(t)))
}

/// The value of `keys` at `time`: the first value before the first key, the last after the
/// last, eased in between; none without keys.
#[verifier::opaque]
pub open spec fn sampled(keys: Seq<Key>, time: Num) -> Option<Num> {
    if keys.len() == 0 {
        None
    } else if at_most(time, keys[0].t) {
        Some(keys[0].v)
    } else if at_most(keys.last().t, time) {
        Some(keys.last().v)
    } else {
        match first_after(keys, time, 0) {
            Some(i) => Some(between(keys[i - 1], keys[i], time)),
            None => None,
        }
    }
}

/// Before its first key a track holds the first value, after its last key the last.
pub proof fn lemma_sampled_ends(keys: Seq<Key>, time: Num)
    requires
        keys.len() > 0,
    ensures
        at_most(time, keys[0].t) ==> sampled(keys, time) == Some(keys[0].v),
        !at_most(time, keys[0].t) && at_most(keys.last().t, time) ==> sampled(keys, time) == Some(
            keys.last().v,
        ),
{
    reveal(sampled);
}

/// Sample `keys` at `time` seconds.
pub fn sample_keys(keys: &Vec<Key>, time: Num) -> (r: Option<Num>)
    ensures
        r == sampled(keys@, time),
{
    proof {
        reveal(sampled);
    }
    if keys.len() == 0 {
        return None;
    }
    let first = keys[0];
    if time.le(first.t) {
        return Some(first.v);
    }
    let last = keys[keys.len() - 1];
    if last.t.le(time) {
        return Some(last.v);
    }
    let mut next: usize = 0;
    while next < keys.len() && !time.lt(keys[next].t)
        invariant
            next <= keys.len(),
            first_after(keys@, time, 0) == first_after(keys@, time, next as int),
        decreases keys.len() - next,
    {
        next = next + 1;
    }
    if next >= keys.len() {
        return None;
    }
    assert(next > 0);
    let a = keys[next - 1];
    let b = keys[next];
    let span = b.t.minus(a.t);
    let t = if span.le(num(0)) {
        num(ONE)
    } else {
        time.minus(a.t).over(span)
    };
    Some(a.v.plus(b.v.minus(a.v).times(b.ease.apply(t))))
}

impl Track {
    /// Sample the track at `time` seconds from timeline start.
    pub fn sample(&self, time: Num) -> (r: Option<Num>)
        ensures
            r == sampled(self.keys@, time),
    {
        sample_keys(&self.keys, time)
    }

    /// End time of the track's last key, 0 when empty.
    pub fn duration(&self) -> (r: Num)
        ensures
            r == last_time(self.keys@),
    {
        keys_end(&self.keys)
    }
}

/// A value the show owns and animates, named and read like a variable.
#[derive(Debug, PartialEq)]
pub struct ShowValue {
    /// What moves it, played exactly as a layer's timelines are.
    pub timelines: Vec<ValueTimeline>,
}

impl View for ShowValue {
    type V = ShowValue;

    open spec fn view(&self) -> ShowValue {
        *self
    }
}

/// One stretch of a show value's motion: a timeline whose keys are the value itself.
#[derive(Debug, PartialEq)]
pub struct ValueTimeline {
    pub name: String,
    /// What starts it.
    pub trigger: Triggers,
    /// Start it when the show loads.
    pub autoplay: bool,
    /// Repeat for ever.
    pub looping: bool,
    /// Seconds to wait after starting before the first key.
    pub delay: Num,
    /// Play it this many times.
    pub repeat: Option<Num>,
    /// Trigger fired when it finishes.
    pub on_end: Option<String>,
    /// Keep the last value instead of handing the value back.
    pub hold: bool,
    /// Keyframes of the value itself.
    pub keys: Vec<Key>,
}

/// How long `repeat` plays of `duration` take.
pub open spec fn played_for(duration: Num, repeat: Option<Num>) -> Num {
    product_of(
        duration,
        max_of(
            match repeat {
                Some(n) => n,
                None => num(ONE),
            },
            num(0),
        ),
    )
}

/// Where within one play the keys are sampled, `elapsed` seconds after the delay.
pub open spec fn local_of(duration: Num, repeat: Option<Num>, elapsed: Num) -> Option<Num> {
    if less(elapsed, num(0)) {
        None
    } else if repeat is Some && less(num(0), duration) && less(
        elapsed,
        played_for(duration, repeat),
    ) {
        Some(remainder_of(elapsed, duration))
    } else {
        Some(elapsed)
    }
}

fn local_in(duration: Num, repeat: Option<Num>, elapsed: Num) -> (r: Option<Num>)
    ensures
        r == local_of(duration, repeat, elapsed),
{
    if elapsed.lt(num(0)) {
        return None;
    }
    if repeat.is_some() && num(0).lt(duration) && elapsed.lt(
        duration.times(repeat.unwrap_or(num(ONE)).max(num(0))),
    ) {
        return Some(elapsed.rem(duration));
    }
    Some(elapsed)
}

impl ValueTimeline {
    pub open spec fn length(self) -> Num {
        last_time(self.keys@)
    }

    /// The value `elapsed` seconds after its delay.
    pub open spec fn value(self, elapsed: Num) -> Option<Num> {
        match local_of(self.length(), self.repeat, elapsed) {
            Some(t) => sampled(self.keys@, t),
            None => None,
        }
    }

    /// One play, in seconds.
    pub fn duration(&self) -> (r: Num)
        ensures
            r == self.length(),
    {
        keys_end(&self.keys)
    }

    /// Time after its delay at which a non-looping one finishes.
    pub fn play_time(&self) -> (r: Num)
        ensures
            r == played_for(self.length(), self.repeat),
    {
        self.duration().times(self.repeat.unwrap_or(num(ONE)).max(num(0)))
    }

    /// Where within one play the keys are sampled, `elapsed` seconds after the delay; `None`
    /// while still delayed.
    pub fn local_time(&self, elapsed: Num) -> (r: Option<Num>)
        ensures
            r == local_of(self.length(), self.repeat, elapsed),
    {
        local_in(self.duration(), self.repeat, elapsed)
    }

    /// The value `elapsed` seconds after its delay.
    pub fn at(&self, elapsed: Num) -> (r: Option<Num>)
        ensures
            r == self.value(elapsed),
    {
        match self.local_time(elapsed) {
            Some(t) => sample_keys(&self.keys, t),
            None => None,
        }
    }
}

/// The longest of the first `n` tracks.
pub open spec fn longest(tracks: Seq<Track>, n: nat) -> Num
    decreases n,
{
    if n == 0 || n > tracks.len() {
        num(0)
    } else {
        max_of(longest(tracks, (n - 1) as nat), last_time(tracks[n - 1].keys@))
    }
}

impl Timeline {
    pub open spec fn length(self) -> Num {
        longest(self.tracks@, self.tracks@.len())
    }

    /// Duration of the longest track: one play.
    pub fn duration(&self) -> (r: Num)
        ensures
            r == self.length(),
    {
        let mut out = num(0);
        let mut i: usize = 0;
        while i < self.tracks.len()
            invariant
                i <= self.tracks.len(),
                out == longest(self.tracks@, i as nat),
            decreases self.tracks.len() - i,
        {
            out = out.max(self.tracks[i].duration());
            i = i + 1;
        }
        out
    }

    /// Time after its delay at which a non-looping timeline finishes.
    pub fn play_time(&self) -> (r: Num)
        ensures
            r == played_for(self.length(), self.repeat),
    {
        self.duration().times(self.repeat.unwrap_or(num(ONE)).max(num(0)))
    }

    /// Where within one play the tracks are sampled, `elapsed` seconds after the delay;
    /// `None` while still delayed.
    pub fn local_time(&self, elapsed: Num) -> (r: Option<Num>)
        ensures
            r == local_of(self.length(), self.repeat, elapsed),
    {
        local_in(self.duration(), self.repeat, elapsed)
    }
}

} // verus!
