//! The engine: the loaded show and all runtime state.

use crate::font::BitmapFont;
use crate::lists::copy_bytes;
use crate::raster::Rgba;
use crate::lru::Cached;
use crate::model::Show;
use crate::names::NameMap;
use crate::num::{num, Num};
use crate::outline::OutlineFace;
use crate::path::PathElement;
use crate::shape::Lettered;
use crate::sites::{site_keys, Site, SiteKey, SiteMap};
use crate::text::{decimal, decimal_of, joined, owned, quoted, quoted_text};
use crate::tree::Root;
use crate::uploads::TextNumbers;
use crate::value::{Held, Value};
use std::sync::Arc;
use vstd::prelude::*;

verus! {

/// Two instants closer together than this are the same instant: a microsecond.
pub const SAME_INSTANT: u64 = 0x3EB0_C6F7_A0B5_ED8D;

/// Events kept while the host does not drain them; the oldest are dropped beyond this.
pub const MAX_PENDING_EVENTS: usize = 256;

/// How many times one frame may be split at something ending.
pub const MAX_SUBSTEPS: usize = 100_000;

#[derive(Debug, PartialEq)]
pub enum Error {
    NoShow,
    InvalidShow(String),
    UnsupportedFormat { found: u64, supported: u32 },
    InvalidColor(String),
    InvalidImage(String),
    InvalidFont(String),
    InvalidSound(String),
    InvalidVideo(String),
}

/// An [`Error`], as plain data.
pub ghost enum Problem {
    NoShow,
    InvalidShow(Seq<char>),
    UnsupportedFormat(u64, u32),
    InvalidColor(Seq<char>),
    InvalidImage(Seq<char>),
    InvalidFont(Seq<char>),
    InvalidSound(Seq<char>),
    InvalidVideo(Seq<char>),
}

impl View for Error {
    type V = Problem;

    open spec fn view(&self) -> Problem {
        match self {
            Error::NoShow => Problem::NoShow,
            Error::InvalidShow(s) => Problem::InvalidShow(s@),
            Error::UnsupportedFormat { found, supported } => Problem::UnsupportedFormat(
                *found,
                *supported,
            ),
            Error::InvalidColor(s) => Problem::InvalidColor(s@),
            Error::InvalidImage(s) => Problem::InvalidImage(s@),
            Error::InvalidFont(s) => Problem::InvalidFont(s@),
            Error::InvalidSound(s) => Problem::InvalidSound(s@),
            Error::InvalidVideo(s) => Problem::InvalidVideo(s@),
        }
    }
}

impl Problem {
    /// What is said about it.
    pub open spec fn words(self) -> Seq<char> {
        match self {
            Problem::NoShow => "no show loaded"@,
            Problem::InvalidShow(s) => "invalid show: "@ + s,
            Problem::UnsupportedFormat(found, supported) => "show format "@ + decimal(
                found as nat,
            ) + " is newer than this engine supports (up to "@ + decimal(supported as nat)
                + ")"@,
            Problem::InvalidColor(s) => "invalid color literal "@ + quoted_text(s),
            Problem::InvalidImage(s) => "invalid image: "@ + s,
            Problem::InvalidFont(s) => "invalid font: "@ + s,
            Problem::InvalidSound(s) => "invalid sound: "@ + s,
            Problem::InvalidVideo(s) => "invalid video: "@ + s,
        }
    }
}

impl Error {
    /// What is said about the error.
    pub fn message(&self) -> (r: String)
        ensures
            r@ == self@.words(),
    {
        match self {
            Error::NoShow => owned("no show loaded"),
            Error::InvalidShow(s) => joined("invalid show: ", s.as_str()),
            Error::UnsupportedFormat { found, supported } => {
                let mut text = joined("show format ", decimal_of(*found).as_str());
                text.append(" is newer than this engine supports (up to ");
                text.append(decimal_of(*supported as u64).as_str());
                text.append(")");
                text
            },
            Error::InvalidColor(s) => joined("invalid color literal ", quoted(s.as_str()).as_str()),
            Error::InvalidImage(s) => joined("invalid image: ", s.as_str()),
            Error::InvalidFont(s) => joined("invalid font: ", s.as_str()),
            Error::InvalidSound(s) => joined("invalid sound: ", s.as_str()),
            Error::InvalidVideo(s) => joined("invalid video: ", s.as_str()),
        }
    }
}

/// A host-provided raster image: tightly packed RGBA8 pixels (straight, non-premultiplied
/// alpha).
#[derive(Debug, PartialEq)]
pub struct ImageData {
    pub width: u32,
    pub height: u32,
    /// `width * height * 4` bytes, row-major RGBA8.
    pub pixels: Vec<u8>,
    pub revision: u64,
}

impl View for ImageData {
    type V = ImageData;

    open spec fn view(&self) -> ImageData {
        *self
    }
}

/// An [`ImageData`], by value.
#[verifier::ext_equal]
pub ghost struct Bits {
    pub columns: u32,
    pub rows: u32,
    pub pixels: Seq<u8>,
    pub revision: u64,
}

pub open spec fn bits(image: ImageData) -> Bits {
    Bits {
        columns: image.width,
        rows: image.height,
        pixels: image.pixels@,
        revision: image.revision,
    }
}

impl Clone for ImageData {
    /// The same upload: its pixels, under its revision.
    fn clone(&self) -> (r: ImageData)
        ensures
            bits(r) == bits(*self),
    {
        let r = ImageData {
            width: self.width,
            height: self.height,
            pixels: copy_bytes(&self.pixels),
            revision: self.revision,
        };
        assert(bits(r) =~= bits(*self));
        r
    }
}

impl ImageData {
    /// Unique to this upload, or to these pixels where the engine drew them, among everything
    /// numbered from the same range. Lets renderers cache GPU resources per upload instead of
    /// comparing pixels.
    pub fn revision(&self) -> (r: u64)
        ensures
            r == self.revision,
    {
        self.revision
    }
}

/// A host-provided outline font file (TrueType / OpenType).
#[derive(Debug, PartialEq)]
pub struct FontData {
    /// The font file's bytes.
    pub data: Arc<Vec<u8>>,
    pub revision: u64,
}

impl View for FontData {
    type V = FontData;

    open spec fn view(&self) -> FontData {
        *self
    }
}

/// A second handle on shared bytes, through [`Arc::clone`]: it points to the same bytes as the
/// one it was made from.
#[verifier::external_body]
fn share(data: &Arc<Vec<u8>>) -> (r: Arc<Vec<u8>>)
    ensures
        r == *data,
{
    Arc::clone(data)
}

impl FontData {
    /// The same font: its bytes are shared, not copied.
    pub(crate) fn copy(&self) -> (r: FontData)
        ensures
            r == *self,
    {
        FontData { data: share(&self.data), revision: self.revision }
    }

    /// Unique to this registration among everything numbered from the same range.
    pub fn revision(&self) -> (r: u64)
        ensures
            r == self.revision,
    {
        self.revision
    }
}

/// Host-provided vector artwork: paths in its own units, drawn by vector layers.
#[derive(Debug, PartialEq)]
pub struct Vector {
    /// The artwork's natural size.
    pub width: Num,
    pub height: Num,
    /// In paint order.
    pub paths: Vec<VectorPath>,
}

impl View for Vector {
    type V = Vector;

    open spec fn view(&self) -> Vector {
        *self
    }
}

/// One path of a [`Vector`]: its geometry and how it is painted.
#[derive(Debug, PartialEq)]
pub struct VectorPath {
    pub elements: Vec<PathElement>,
    /// Fill color as RGBA bytes; `None` for an outline only.
    pub fill: Option<[u8; 4]>,
    /// Stroke color and width, in the artwork's units.
    pub stroke: Option<([u8; 4], Num)>,
}

/// A host-registered bitmap font: its description and page pixels.
#[derive(Debug, PartialEq)]
pub struct RegisteredFont {
    pub font: BitmapFont,
    pub pages: Vec<Rgba>,
}

impl View for RegisteredFont {
    type V = RegisteredFont;

    open spec fn view(&self) -> RegisteredFont {
        *self
    }
}

/// What the engine knows of a video: how long it runs and how big it is.
#[derive(Clone, Copy, Debug, PartialEq, Eq, Structural)]
pub struct VideoInfo {
    /// Seconds, for looping, repeating and ending a play.
    pub duration: Num,
    /// The video's own size in pixels.
    pub width: Num,
    pub height: Num,
}

impl View for VideoInfo {
    type V = VideoInfo;

    open spec fn view(&self) -> VideoInfo {
        *self
    }
}

/// Something the show did that hosts may want to react to.
#[derive(Debug, PartialEq)]
pub enum Event {
    /// The show fired this trigger itself. Triggers the host fires are not echoed back.
    Trigger(String),
}

impl View for Event {
    type V = Seq<char>;

    open spec fn view(&self) -> Seq<char> {
        match self {
            Event::Trigger(name) => name@,
        }
    }
}

/// What a playhead's timeline belongs to.
#[derive(Debug, PartialEq)]
pub enum Owner {
    /// A layer's timeline, animating that layer's properties.
    Layer { root: Root, path: Vec<usize> },
    /// A show value's timeline, animating the value itself.
    Value(String),
}

/// An [`Owner`], by value.
pub ghost enum OwnerKey {
    Layer(Root, Seq<usize>),
    Value(Seq<char>),
}

impl View for Owner {
    type V = OwnerKey;

    open spec fn view(&self) -> OwnerKey {
        match self {
            Owner::Layer { root, path } => OwnerKey::Layer(*root, path@),
            Owner::Value(name) => OwnerKey::Value(name@),
        }
    }
}

impl OwnerKey {
    pub open spec fn root(self) -> Root {
        match self {
            OwnerKey::Layer(root, _) => root,
            OwnerKey::Value(_) => Root::Show,
        }
    }
}

impl Owner {
    /// Which tree it lives in. A value belongs to the show, so leaving a scene does not stop
    /// one.
    pub fn root(&self) -> (r: Root)
        ensures
            r == self@.root(),
    {
        match self {
            Owner::Layer { root, .. } => *root,
            Owner::Value(_) => Root::Show,
        }
    }

    /// Whether it is the timeline of exactly this layer.
    pub fn is_layer(&self, root: Root, path: &Vec<usize>) -> (r: bool)
        ensures
            r == (self@ == OwnerKey::Layer(root, path@)),
    {
        match self {
            Owner::Layer { root: mine, path: here } => *mine == root && crate::sites::same_path(
                here,
                path,
            ),
            Owner::Value(_) => false,
        }
    }

    pub fn same(&self, other: &Owner) -> (r: bool)
        ensures
            r == (self@ == other@),
    {
        match (self, other) {
            (Owner::Layer { root, path }, Owner::Layer { root: r2, path: p2 }) => *root == *r2
                && crate::sites::same_path(path, p2),
            (Owner::Value(a), Owner::Value(b)) => *a == *b,
            _ => false,
        }
    }
}

/// A running timeline instance.
#[derive(Debug)]
pub struct Playhead {
    pub owner: Owner,
    /// Timeline index within its owner.
    pub timeline: usize,
    /// The instant on the show's clock the timeline's first key falls on.
    pub starts: Num,
    /// Finished, but holding its properties at their last values.
    pub held: bool,
}

/// A [`Playhead`], by value.
pub ghost struct Running {
    pub owner: OwnerKey,
    pub timeline: usize,
    pub starts: Num,
    pub held: bool,
}

impl View for Playhead {
    type V = Running;

    open spec fn view(&self) -> Running {
        Running {
            owner: self.owner@,
            timeline: self.timeline,
            starts: self.starts,
            held: self.held,
        }
    }
}

/// One play of an audio or video layer, from its trigger until it ends or is stopped.
#[derive(Debug)]
pub struct Sounding {
    pub root: Root,
    pub layer_path: Vec<usize>,
    /// Engine-unique, so a backend can tell one play from the next.
    pub id: u64,
    /// Engine time it was triggered at; the delay counts from here.
    pub started: Num,
    /// What it is playing.
    pub playing: String,
}

/// A [`Sounding`], by value.
pub ghost struct Play {
    pub root: Root,
    pub path: Seq<usize>,
    pub id: u64,
    pub started: Num,
    pub playing: Seq<char>,
}

impl View for Sounding {
    type V = Play;

    open spec fn view(&self) -> Play {
        Play {
            root: self.root,
            path: self.layer_path@,
            id: self.id,
            started: self.started,
            playing: self.playing@,
        }
    }
}

impl Play {
    pub open spec fn on(self, root: Root, path: Seq<usize>) -> bool {
        self.root == root && self.path == path
    }
}

impl Sounding {
    pub(crate) fn on(&self, root: Root, path: &Vec<usize>) -> (r: bool)
        ensures
            r == self@.on(root, path@),
    {
        self.root == root && crate::sites::same_path(&self.layer_path, path)
    }
}

/// A play waiting its turn.
#[derive(Debug)]
pub struct Waiting {
    pub root: Root,
    pub path: Vec<usize>,
    /// The asset asked for.
    pub asked: String,
}

/// A [`Waiting`], by value.
pub ghost struct Turn {
    pub root: Root,
    pub path: Seq<usize>,
    pub asked: Seq<char>,
}

impl View for Waiting {
    type V = Turn;

    open spec fn view(&self) -> Turn {
        Turn { root: self.root, path: self.path@, asked: self.asked@ }
    }
}

impl Turn {
    pub open spec fn on(self, root: Root, path: Seq<usize>) -> bool {
        self.root == root && self.path == path
    }
}

impl Waiting {
    pub(crate) fn on(&self, root: Root, path: &Vec<usize>) -> (r: bool)
        ensures
            r == self@.on(root, path@),
    {
        self.root == root && crate::sites::same_path(&self.path, path)
    }
}

/// A bound value on its way from `start` to `target` since engine time `started`.
#[derive(Clone, Copy, Debug, PartialEq, Eq, Structural)]
pub struct Change {
    pub start: Num,
    pub target: Num,
    pub started: Num,
    /// Whether this change runs between whole numbers.
    pub whole: bool,
}

impl View for Change {
    type V = Change;

    open spec fn view(&self) -> Change {
        *self
    }
}

/// A color on its way to another one.
#[derive(Clone, Copy, Debug)]
pub struct ColorChange {
    pub start: [u8; 4],
    pub target: [u8; 4],
    pub started: Num,
}

impl View for ColorChange {
    type V = ColorChange;

    open spec fn view(&self) -> ColorChange {
        *self
    }
}

/// A debounced binding's input: the value that reached the property, and the newer one
/// waiting to have held long enough.
#[derive(Debug)]
pub struct Settling {
    pub settled: Value,
    pub candidate: Value,
    /// Engine time the candidate first appeared.
    pub since: Num,
}

/// A [`Settling`], by value.
pub ghost struct Settled {
    pub settled: Held,
    pub candidate: Held,
    pub since: Num,
}

impl View for Settling {
    type V = Settled;

    open spec fn view(&self) -> Settled {
        Settled { settled: self.settled@, candidate: self.candidate@, since: self.since }
    }
}

/// Where a ducking layer's level is and when it started going there.
#[derive(Clone, Copy, Debug, PartialEq, Eq, Structural)]
pub struct Ducked {
    /// Whether the bus it listens to was sounding at the last step.
    pub down: bool,
    /// Engine time the level started moving toward where it is going.
    pub since: Num,
    /// The level it was at when it started moving.
    pub from: Num,
}

impl View for Ducked {
    type V = Ducked;

    open spec fn view(&self) -> Ducked {
        *self
    }
}

/// What a playhead has played so far.
#[derive(Clone, Copy, Debug, PartialEq, Eq, Structural)]
pub struct Played {
    /// How many plays it has started.
    pub count: u64,
    /// When the last one started.
    pub at: Num,
}

impl View for Played {
    type V = Played;

    open spec fn view(&self) -> Played {
        *self
    }
}

/// The engine: owns the loaded show and all runtime state.
#[derive(Debug)]
pub struct Engine {
    pub(crate) show: Option<Show>,
    pub(crate) variables: NameMap<Value>,
    pub(crate) images: NameMap<ImageData>,
    pub(crate) vectors: NameMap<Vector>,
    pub(crate) fonts: NameMap<RegisteredFont>,
    pub(crate) outline_fonts: NameMap<FontData>,
    /// The measures of outline fonts at the sizes of the show's styles, by style.
    pub(crate) faces: NameMap<OutlineFace>,
    /// Registered sounds and their durations in seconds.
    pub(crate) sounds: NameMap<Num>,
    /// Registered videos: what the engine knows without decoding them.
    pub(crate) videos: NameMap<VideoInfo>,
    pub(crate) playing: Vec<Playhead>,
    pub(crate) sounding: Vec<Sounding>,
    /// Id of the latest play; ids are never reused.
    pub(crate) next_voice: u64,
    /// The latest number given out, to an upload or to a bitmap of text.
    pub(crate) revision: u64,
    /// The numbers of bitmaps of text.
    pub(crate) rasters: TextNumbers,
    /// Every binding with a transition, found once at load.
    pub(crate) transition_sites: Vec<Site>,
    /// The change each of them is making; absent until its first frame.
    pub(crate) transitions: SiteMap<Change>,
    /// The same, for the one property whose value is a color.
    pub(crate) color_transitions: SiteMap<ColorChange>,
    /// Every binding with a debounce, found once at load.
    pub(crate) debounce_sites: Vec<Site>,
    pub(crate) debounced: SiteMap<Settling>,
    /// Where each ducking layer's level is.
    pub(crate) ducking: SiteMap<Ducked>,
    /// Which timeline conditions held last frame.
    pub(crate) conditions: SiteMap<bool>,
    /// What each pointed layer last played.
    pub(crate) shown: SiteMap<String>,
    /// What each playhead has played so far.
    pub(crate) plays: SiteMap<Played>,
    /// Plays waiting their turn, oldest first.
    pub(crate) waiting: Vec<Waiting>,
    /// Scrambles the picks that are meant to vary.
    pub(crate) seed: u64,
    /// Every reel row, found once at load.
    pub(crate) reel_sites: Vec<Site>,
    /// Where each reel row's cells are on their ring, in cell order.
    pub(crate) reels: SiteMap<Vec<Change>>,
    /// Reel rows told to spin since the last frame.
    pub(crate) spinning: Vec<Site>,
    pub(crate) active_scene: Option<usize>,
    pub(crate) events: Vec<Event>,
    pub(crate) load_warnings: Vec<String>,
    pub(crate) time: Num,
}

/// What an [`Engine`] holds, as plain data.
#[verifier::ext_equal]
pub ghost struct State {
    pub show: Option<Show>,
    pub variables: Seq<(Seq<char>, Held)>,
    pub images: Seq<(Seq<char>, ImageData)>,
    pub vectors: Seq<(Seq<char>, Vector)>,
    pub fonts: Seq<(Seq<char>, RegisteredFont)>,
    pub outline_fonts: Seq<(Seq<char>, FontData)>,
    pub faces: Seq<(Seq<char>, OutlineFace)>,
    pub sounds: Seq<(Seq<char>, Num)>,
    pub videos: Seq<(Seq<char>, VideoInfo)>,
    pub playing: Seq<Running>,
    pub sounding: Seq<Play>,
    pub next_voice: u64,
    pub revision: u64,
    pub rasters: Seq<Cached<Lettered, u64>>,
    pub transition_sites: Seq<SiteKey>,
    pub transitions: Map<SiteKey, Change>,
    pub color_transitions: Map<SiteKey, ColorChange>,
    pub debounce_sites: Seq<SiteKey>,
    pub debounced: Map<SiteKey, Settled>,
    pub ducking: Map<SiteKey, Ducked>,
    pub conditions: Map<SiteKey, bool>,
    pub shown: Map<SiteKey, Seq<char>>,
    pub plays: Map<SiteKey, Played>,
    pub waiting: Seq<Turn>,
    pub seed: u64,
    pub reel_sites: Seq<SiteKey>,
    pub reels: Map<SiteKey, Seq<Change>>,
    pub spinning: Seq<SiteKey>,
    pub active_scene: Option<usize>,
    pub events: Seq<Seq<char>>,
    pub load_warnings: Seq<Seq<char>>,
    pub time: Num,
}

pub open spec fn runnings(list: Seq<Playhead>) -> Seq<Running> {
    list.map_values(|p: Playhead| p@)
}

pub open spec fn plays_of(list: Seq<Sounding>) -> Seq<Play> {
    list.map_values(|s: Sounding| s@)
}

pub open spec fn turns_of(list: Seq<Waiting>) -> Seq<Turn> {
    list.map_values(|w: Waiting| w@)
}

pub open spec fn event_names(list: Seq<Event>) -> Seq<Seq<char>> {
    list.map_values(|e: Event| e@)
}

pub open spec fn texts(list: Seq<String>) -> Seq<Seq<char>> {
    list.map_values(|s: String| s@)
}

impl View for Engine {
    type V = State;

    open(crate) spec fn view(&self) -> State {
        State {
            show: self.show,
            variables: self.variables@,
            images: self.images@,
            vectors: self.vectors@,
            fonts: self.fonts@,
            outline_fonts: self.outline_fonts@,
            faces: self.faces@,
            sounds: self.sounds@,
            videos: self.videos@,
            playing: runnings(self.playing@),
            sounding: plays_of(self.sounding@),
            next_voice: self.next_voice,
            revision: self.revision,
            rasters: self.rasters@,
            transition_sites: site_keys(self.transition_sites@),
            transitions: self.transitions@,
            color_transitions: self.color_transitions@,
            debounce_sites: site_keys(self.debounce_sites@),
            debounced: self.debounced@,
            ducking: self.ducking@,
            conditions: self.conditions@,
            shown: self.shown@,
            plays: self.plays@,
            waiting: turns_of(self.waiting@),
            seed: self.seed,
            reel_sites: site_keys(self.reel_sites@),
            reels: self.reels@,
            spinning: site_keys(self.spinning@),
            active_scene: self.active_scene,
            events: event_names(self.events@),
            load_warnings: texts(self.load_warnings@),
            time: self.time,
        }
    }
}

impl State {
    /// A new engine: nothing loaded, nothing registered.
    pub open spec fn empty() -> State {
        State {
            show: None,
            variables: Seq::empty(),
            images: Seq::empty(),
            vectors: Seq::empty(),
            fonts: Seq::empty(),
            outline_fonts: Seq::empty(),
            faces: Seq::empty(),
            sounds: Seq::empty(),
            videos: Seq::empty(),
            playing: Seq::empty(),
            sounding: Seq::empty(),
            next_voice: 0,
            revision: 0,
            rasters: Seq::empty(),
            transition_sites: Seq::empty(),
            transitions: Map::empty(),
            color_transitions: Map::empty(),
            debounce_sites: Seq::empty(),
            debounced: Map::empty(),
            ducking: Map::empty(),
            conditions: Map::empty(),
            shown: Map::empty(),
            plays: Map::empty(),
            waiting: Seq::empty(),
            seed: 0,
            reel_sites: Seq::empty(),
            reels: Map::empty(),
            spinning: Seq::empty(),
            active_scene: None,
            events: Seq::empty(),
            load_warnings: Seq::empty(),
            time: num(0),
        }
    }

    /// Whether a tree is showing.
    pub open spec fn shows(self, root: Root) -> bool {
        root == Root::Show || (self.active_scene is Some && root == Root::Scene(
            self.active_scene->0,
        ))
    }
}

impl Engine {
    /// An engine with no show, whose uploads are numbered from behind `first` on. The host gives
    /// each engine a range of its own, so that a cache shared between engines cannot mistake one
    /// engine's asset for another's.
    pub fn new(first: u64) -> (r: Engine)
        ensures
            r@ == (State { revision: first, ..State::empty() }),
    {
        let r = Engine {
            show: None,
            variables: NameMap::new(),
            images: NameMap::new(),
            vectors: NameMap::new(),
            fonts: NameMap::new(),
            outline_fonts: NameMap::new(),
            faces: NameMap::new(),
            sounds: NameMap::new(),
            videos: NameMap::new(),
            playing: Vec::new(),
            sounding: Vec::new(),
            next_voice: 0,
            revision: first,
            rasters: TextNumbers::new(),
            transition_sites: Vec::new(),
            transitions: SiteMap::new(),
            color_transitions: SiteMap::new(),
            debounce_sites: Vec::new(),
            debounced: SiteMap::new(),
            ducking: SiteMap::new(),
            conditions: SiteMap::new(),
            shown: SiteMap::new(),
            plays: SiteMap::new(),
            waiting: Vec::new(),
            seed: 0,
            reel_sites: Vec::new(),
            reels: SiteMap::new(),
            spinning: Vec::new(),
            active_scene: None,
            events: Vec::new(),
            load_warnings: Vec::new(),
            time: num(0),
        };
        assert(r@ =~= State { revision: first, ..State::empty() });
        r
    }

    /// Whether a tree is showing.
    pub(crate) fn shows(&self, root: Root) -> (r: bool)
        ensures
            r == self@.shows(root),
    {
        match root {
            Root::Show => true,
            Root::Scene(i) => match self.active_scene {
                Some(scene) => scene == i,
                None => false,
            },
        }
    }
}

} // verus!
