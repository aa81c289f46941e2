//! cuelight: an embeddable multimedia engine, with its logic verified.
//!
//! Shows are trees of typed layers whose properties are driven by three kinds of input:
//! **variables** (named values pushed by the host), **triggers** (named events fired by the
//! host) and **timelines** (keyframed property animation described as data).
//!
//! The core contract is four calls:
//!
//! - [`Engine::load_show`]: load a declarative show description
//! - [`Engine::set_variable`]: push a named value from the host
//! - [`Engine::trigger`]: fire a named event
//! - [`Engine::advance_frame`]: advance time by `dt` seconds
//!
//! plus obtaining the output. [`Engine::resolved_layers`] is a flat draw list for hosts that
//! draw themselves: the engine only describes what to draw. [`Engine::picture`] turns it into
//! the orders a vector renderer takes. [`Engine::voices`] is the same for sound: what should be
//! heard, for an audio backend to play, and [`Engine::videos`] for what should be decoded.
//! [`Engine::drain_events`] hands back what the show itself fired.
//!
//! # How it is specified
//!
//! An [`Engine`] is viewed as a [`State`](state::State), plain data that holds what the engine
//! holds. A call of the engine is a function of `State` with a name of its own, and the
//! function's contract says that the view behind the call is that function of the view before
//! it. What should hold of several calls together stands in proof functions: of the clock, the
//! triggers and the scenes in [`laws`], of what moves in [`motion`] and [`stepping`], of where
//! things land in [`placing`] and [`geometry`], of what is heard in [`mix`], of what is drawn in
//! [`listing`] and [`nesting`], and of the rest in the modules beside them.
//!
//! Numbers are [`Num`]: IEEE doubles held by their bits, with every operation rounded to
//! nearest, ties to even. [`num`] says what each operation gives, over the integers. [`exact`]
//! has the cases in which nothing is lost to rounding: there a law can say exactly what comes out.

use vstd::prelude::*;

// Numbers and text.
pub mod arith;
pub mod big;
pub mod debug;
pub mod decimal;
pub mod exact;
pub mod lists;
pub mod names;
pub mod num;
pub mod order;
pub mod text;
pub mod value;
pub mod waves;

// What a show is made of.
pub mod color;
pub mod easing;
pub mod lamp;
pub mod model;
pub mod output;
pub mod path;
pub mod pick;
pub mod sites;
pub mod survey;
pub mod tree;

// Loading a show.
pub mod json;
pub mod load;
pub mod validate;
pub mod warn;

// Running it.
pub mod assets;
pub mod bind;
pub mod clock;
pub mod follow;
pub mod ids;
pub mod letters;
pub mod listen;
pub mod play;
pub mod schedule;
pub mod state;
pub mod uploads;

// What comes out.
pub mod cells;
pub mod draw;
pub mod font;
pub mod frame;
pub mod hear;
pub mod lru;
pub mod outline;
pub mod paint;
pub mod raster;
pub mod segments;
pub mod shape;
pub mod walk;

// What holds of several of these together.
pub mod bounds;
pub mod conditions;
pub mod curves;
pub mod dressing;
pub mod figures;
pub mod filament;
pub mod finishing;
pub mod geometry;
pub mod laws;
pub mod listing;
pub mod mix;
pub mod motion;
pub mod nesting;
pub mod panels;
pub mod pixels;
pub mod placing;
pub mod reacting;
pub mod rows;
pub mod running;
pub mod stepping;
pub mod tracing;
pub mod typesetting;
pub mod watching;

pub use crate::easing::Easing;
pub use crate::font::BitmapFont;
pub use crate::hear::{Playing, Voice};
pub use crate::model::{
    Align, Binding, Blend, Border, DigitDisplay, Direction, DotShape, Dots, FontStyle, Justify,
    Key, Layer, LayerKind, Output, OutputMode, Pass, Property, Reel, ReelCells, Retrigger,
    Scaling, Scene, SegmentStyle, Shape, Sheet, Show, Stroke, Timeline, Track, Transition,
    Triggers, FORMAT,
};
pub use crate::num::Num;
pub use crate::outline::PlacedGlyph;
pub use crate::output::OutputColor;
pub use crate::path::{PathData, PathElement};
pub use crate::shape::{ResolvedLayer, ResolvedShape, Transform};
pub use crate::state::{Engine, Error, Event, FontData, ImageData, Vector, VectorPath, VideoInfo};
pub use crate::value::{NumberFormat, Value};

verus! {

} // verus!
