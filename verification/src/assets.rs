//! What a host registers with the engine, and what it can read back.

use crate::decimal::{display, display_text};
use crate::font::BitmapFont;
use crate::model::{Output, OutputSet, Pass, Scaling, Show};
use crate::names::{inserted, lookup, removed};
use crate::num::{less, num, Num};
use crate::outline::{font_error, font_problem, OutlineFace};
use crate::output::{full_color, resolved_output, OutputColor};
use crate::raster::Rgba;
use crate::state::{
    texts, Engine, Error, FontData, ImageData, Problem, RegisteredFont, State, Vector, VideoInfo,
};
use crate::uploads::TextNumbers;
use crate::text::{decimal, digit_of, joined, owned, quoted, quoted_text};
use std::sync::Arc;
use vstd::prelude::*;

verus! {

/// A whole number in decimal.
fn wide_decimal(n: u128) -> (r: String)
    ensures
        r@ == decimal(n as nat),
    decreases n,
{
    if n < 10 {
        let mut out = String::new();
        out.push(digit_of(n as u8));
        assert(out@ =~= decimal(n as nat));
        out
    } else {
        let mut out = wide_decimal(n / 10);
        out.push(digit_of((n % 10) as u8));
        out
    }
}

/// How many bytes an image of a size takes.
pub open spec fn image_bytes(width: u32, height: u32) -> nat {
    (width * height * 4) as nat
}

fn image_bytes_of(width: u32, height: u32) -> (n: u128)
    ensures
        n == image_bytes(width, height),
{
    assert(0 <= width * height <= 0xFFFF_FFFF * 0xFFFF_FFFF) by (nonlinear_arith)
        requires
            0 <= width <= 0xFFFF_FFFF,
            0 <= height <= 0xFFFF_FFFF,
    ;
    width as u128 * height as u128 * 4
}

/// What is said of an image whose bytes do not match its size.
pub open spec fn image_problem(name: Seq<char>, len: nat, width: u32, height: u32) -> Seq<char> {
    quoted_text(name) + ": "@ + decimal(len) + " bytes for "@ + decimal(width as nat) + "x"@
        + decimal(height as nat) + ", expected "@ + decimal(image_bytes(width, height))
}

/// What is said of a page whose bytes do not match its size.
pub open spec fn page_problem(name: Seq<char>, len: nat, width: u32, height: u32) -> Seq<char> {
    quoted_text(name) + ": page of "@ + decimal(len) + " bytes for "@ + decimal(width as nat)
        + "x"@ + decimal(height as nat)
}

/// The first page whose bytes do not match its size.
pub open spec fn bad_page(pages: Seq<(u32, u32, Vec<u8>)>, from: int) -> Option<int>
    decreases pages.len() - from,
{
    if from < 0 || from >= pages.len() {
        None
    } else if pages[from].2@.len() != image_bytes(pages[from].0, pages[from].1) {
        Some(from)
    } else {
        bad_page(pages, from + 1)
    }
}

/// What is wrong with the pages of a bitmap font.
pub open spec fn font_pages_problem(
    name: Seq<char>,
    wanted: nat,
    pages: Seq<(u32, u32, Vec<u8>)>,
) -> Option<Seq<char>> {
    if pages.len() != wanted {
        Some(
            quoted_text(name) + ": "@ + decimal(pages.len()) + " page images for "@ + decimal(
                wanted,
            ) + " pages"@,
        )
    } else {
        match bad_page(pages, 0) {
            Some(i) => Some(
                page_problem(name, pages[i].2@.len(), pages[i].0, pages[i].1),
            ),
            None => None,
        }
    }
}

/// A number that is finite and above 0.
pub open spec fn above_zero(n: Num) -> bool {
    n.finite() && less(num(0), n)
}

fn is_above_zero(n: Num) -> (r: bool)
    ensures
        r == above_zero(n),
{
    n.is_finite() && num(0).lt(n)
}

/// A list of pages, as pixels.
pub open spec fn same_pages(pages: Seq<(u32, u32, Vec<u8>)>, out: Seq<Rgba>) -> bool {
    out.len() == pages.len() && forall|i: int|
        0 <= i < pages.len() ==> (#[trigger] out[i]).width == pages[i].0 && out[i].height
            == pages[i].1 && out[i].pixels == pages[i].2
}

impl State {
    /// With an image registered under the next number.
    pub open spec fn with_image(
        self,
        name: Seq<char>,
        width: u32,
        height: u32,
        pixels: Vec<u8>,
    ) -> State {
        let revision = self.revision.wrapping_add(1);
        State {
            revision,
            images: inserted(self.images, name, ImageData { width, height, pixels, revision }),
            ..self
        }
    }

    /// With a bitmap font registered, in place of an outline font of that name. No text keeps
    /// its number.
    pub open spec fn with_font(self, name: Seq<char>, data: RegisteredFont) -> State {
        State {
            outline_fonts: removed(self.outline_fonts, name),
            fonts: inserted(self.fonts, name, data),
            rasters: Seq::empty(),
            ..self
        }
    }

    /// With an outline font registered under the next number, in place of a bitmap font of
    /// that name. No text keeps its number.
    pub open spec fn with_outline_font(self, name: Seq<char>, bytes: Vec<u8>) -> State {
        let revision = self.revision.wrapping_add(1);
        State {
            revision,
            fonts: removed(self.fonts, name),
            outline_fonts: inserted(
                self.outline_fonts,
                name,
                FontData { data: Arc::new(bytes), revision },
            ),
            faces: Seq::empty(),
            rasters: Seq::empty(),
            ..self
        }
    }
}

impl Engine {
    /// Register (or replace) a named RGBA8 image that image layers can reference. Images are
    /// host assets, not show content: they survive `load_show` and may be provided before or
    /// after the show that uses them.
    pub fn set_image(&mut self, name: &str, width: u32, height: u32, pixels: Vec<u8>) -> (r: Result<
        (),
        Error,
    >)
        ensures
            match r {
                Ok(()) => pixels@.len() == image_bytes(width, height) && final(self)@ == old(
                    self,
                )@.with_image(name@, width, height, pixels),
                Err(e) => pixels@.len() != image_bytes(width, height) && final(self)@ == old(
                    self,
                )@ && e@ == Problem::InvalidImage(
                    image_problem(name@, pixels@.len(), width, height),
                ),
            },
    {
        let expected: u128 = image_bytes_of(width, height);
        if pixels.len() as u128 != expected {
            let mut what = joined(quoted(name).as_str(), ": ");
            what.append(wide_decimal(pixels.len() as u128).as_str());
            what.append(" bytes for ");
            what.append(wide_decimal(width as u128).as_str());
            what.append("x");
            what.append(wide_decimal(height as u128).as_str());
            what.append(", expected ");
            what.append(wide_decimal(expected).as_str());
            return Err(Error::InvalidImage(what));
        }
        self.revision = self.revision.wrapping_add(1);
        let data = ImageData { width, height, pixels, revision: self.revision };
        self.images.insert(owned(name), data);
        Ok(())
    }

    /// Register (or replace) a named bitmap font that font styles reference by `file`: a
    /// parsed description plus its page images in page order, each `(width, height, RGBA8
    /// pixels)`.
    pub fn set_font(&mut self, name: &str, font: BitmapFont, pages: Vec<(u32, u32, Vec<u8>)>) -> (r:
        Result<(), Error>)
        ensures
            match font_pages_problem(name@, font@.pages.len(), pages@) {
                None => r is Ok && exists|data: RegisteredFont|
                    {
                        &&& data.font == font && same_pages(pages@, data.pages@)
                        &&& final(self)@ == #[trigger] old(self)@.with_font(name@, data)
                    },
                Some(what) => final(self)@ == old(self)@ && (r matches Err(e) && e@
                    == Problem::InvalidFont(what)),
            },
    {
        let count: usize = font.pages().len();
        assert(count == font@.pages.len()) by {
            assert(font@.pages.len() == count);
        }
        if pages.len() != count {
            let mut what = joined(quoted(name).as_str(), ": ");
            what.append(wide_decimal(pages.len() as u128).as_str());
            what.append(" page images for ");
            what.append(wide_decimal(count as u128).as_str());
            what.append(" pages");
            return Err(Error::InvalidFont(what));
        }
        let mut i: usize = 0;
        while i < pages.len()
            invariant
                i <= pages.len(),
                *self == *old(self),
                pages@.len() == font@.pages.len(),
                bad_page(pages@, 0) == bad_page(pages@, i as int),
            decreases pages.len() - i,
        {
            let (width, height): (u32, u32) = (pages[i].0, pages[i].1);
            let len: usize = pages[i].2.len();
            if len as u128 != image_bytes_of(width, height) {
                let mut what = joined(quoted(name).as_str(), ": page of ");
                what.append(wide_decimal(len as u128).as_str());
                what.append(" bytes for ");
                what.append(wide_decimal(width as u128).as_str());
                what.append("x");
                what.append(wide_decimal(height as u128).as_str());
                return Err(Error::InvalidFont(what));
            }
            i = i + 1;
        }
        let ghost given = pages@;
        let mut rest = pages;
        let mut images: Vec<Rgba> = Vec::new();
        while rest.len() > 0
            invariant
                images@.len() + rest@.len() == given.len(),
                forall|k: int| 0 <= k < rest@.len() ==> rest@[k] == given[images@.len() + k],
                forall|k: int|
                    0 <= k < images@.len() ==> (#[trigger] images@[k]).width == given[k].0
                        && images@[k].height == given[k].1 && images@[k].pixels == given[k].2,
            decreases rest@.len(),
        {
            let page = rest.remove(0);
            images.push(Rgba { width: page.0, height: page.1, pixels: page.2 });
        }
        self.outline_fonts.remove(name);
        let data = RegisteredFont { font, pages: images };
        self.fonts.insert(owned(name), data);
        self.rasters = TextNumbers::new();
        proof {
            assert(same_pages(given, data.pages@));
            assert(self@ =~= old(self)@.with_font(name@, data));
        }
        Ok(())
    }

    /// Register (or replace) a named outline font (TrueType / OpenType file bytes) that font
    /// styles reference by `file`, with the em size they set. Registering a name replaces a
    /// bitmap font of that name. What was measured of outline fonts before is forgotten.
    pub fn set_outline_font(&mut self, name: &str, bytes: Vec<u8>) -> (r: Result<(), Error>)
        ensures
            match font_error(bytes@) {
                Some(what) => final(self)@ == old(self)@ && (r matches Err(e) && e@
                    == Problem::InvalidFont(quoted_text(name@) + ": "@ + what)),
                None => r is Ok && final(self)@ == old(self)@.with_outline_font(name@, bytes),
            },
    {
        let problem = font_problem(&bytes);
        self.accept_outline_font(name, bytes, problem)
    }

    /// Registers an outline font, given what is wrong with its bytes, if anything.
    pub fn accept_outline_font(&mut self, name: &str, bytes: Vec<u8>, problem: Option<String>) -> (r:
        Result<(), Error>)
        ensures
            match problem {
                Some(what) => final(self)@ == old(self)@ && (r matches Err(e) && e@
                    == Problem::InvalidFont(quoted_text(name@) + ": "@ + what@)),
                None => r is Ok && final(self)@ == old(self)@.with_outline_font(name@, bytes),
            },
    {
        if let Some(problem) = problem {
            let mut what = joined(quoted(name).as_str(), ": ");
            what.append(problem.as_str());
            return Err(Error::InvalidFont(what));
        }
        self.fonts.remove(name);
        self.revision = self.revision.wrapping_add(1);
        let data = FontData { data: Arc::new(bytes), revision: self.revision };
        self.outline_fonts.insert(owned(name), data);
        self.faces = crate::names::NameMap::new();
        self.rasters = TextNumbers::new();
        Ok(())
    }

    /// The outline font registered under `name`, if any.
    pub fn outline_font(&self, name: &str) -> (r: Option<&FontData>)
        ensures
            match r {
                Some(data) => lookup(self@.outline_fonts, name@) == Some(*data),
                None => lookup(self@.outline_fonts, name@) is None,
            },
    {
        self.outline_fonts.get(name)
    }

    /// The measures of a style's outline font at its size, for laying text out.
    pub fn set_face(&mut self, style: &str, face: OutlineFace)
        ensures
            final(self)@ == (State {
                faces: inserted(old(self)@.faces, style@, face),
                ..old(self)@
            }),
    {
        self.faces.insert(owned(style), face);
    }

    /// Whether a font, bitmap or outline, is registered under `name`.
    pub fn has_font(&self, name: &str) -> (r: bool)
        ensures
            r == (lookup(self@.fonts, name@) is Some || lookup(self@.outline_fonts, name@) is Some),
    {
        self.fonts.contains(name) || self.outline_fonts.contains(name)
    }

    /// Register (or replace) a named sound by its `duration` in seconds, which is all the
    /// engine needs of it.
    pub fn set_sound(&mut self, name: &str, duration: Num) -> (r: Result<(), Error>)
        ensures
            if above_zero(duration) {
                r is Ok && final(self)@ == (State {
                    sounds: inserted(old(self)@.sounds, name@, duration),
                    ..old(self)@
                })
            } else {
                final(self)@ == old(self)@ && (r matches Err(e) && e@ == Problem::InvalidSound(
                    quoted_text(name@) + ": duration "@ + display_text(duration)
                        + " is not above 0"@,
                ))
            },
    {
        if !is_above_zero(duration) {
            let mut what = joined(quoted(name).as_str(), ": duration ");
            what.append(display(duration).as_str());
            what.append(" is not above 0");
            return Err(Error::InvalidSound(what));
        }
        self.sounds.insert(owned(name), duration);
        Ok(())
    }

    /// The duration registered for sound `name`, in seconds.
    pub fn sound_duration(&self, name: &str) -> (r: Option<Num>)
        ensures
            r == lookup(self@.sounds, name@),
    {
        match self.sounds.get(name) {
            Some(n) => Some(*n),
            None => None,
        }
    }

    /// Register (or replace) a named video by its `duration` in seconds and its size in
    /// pixels, which is all the engine needs of it. Decoding is the host's.
    pub fn set_video(&mut self, name: &str, duration: Num, size: [Num; 2]) -> (r: Result<(), Error>)
        ensures
            if above_zero(duration) && above_zero(size[0]) && above_zero(size[1]) {
                r is Ok && final(self)@ == (State {
                    videos: inserted(
                        old(self)@.videos,
                        name@,
                        VideoInfo { duration, width: size[0], height: size[1] },
                    ),
                    ..old(self)@
                })
            } else {
                final(self)@ == old(self)@ && (r matches Err(e) && e@ == Problem::InvalidVideo(
                    quoted_text(name@) + ": "@ + display_text(duration) + "s at "@ + display_text(
                        size[0],
                    ) + "x"@ + display_text(size[1]) + " is not above 0"@,
                ))
            },
    {
        if !is_above_zero(duration) || !is_above_zero(size[0]) || !is_above_zero(size[1]) {
            let mut what = joined(quoted(name).as_str(), ": ");
            what.append(display(duration).as_str());
            what.append("s at ");
            what.append(display(size[0]).as_str());
            what.append("x");
            what.append(display(size[1]).as_str());
            what.append(" is not above 0");
            return Err(Error::InvalidVideo(what));
        }
        self.videos.insert(
            owned(name),
            VideoInfo { duration, width: size[0], height: size[1] },
        );
        Ok(())
    }

    /// Scramble the picks that are meant to vary. Set it before the show loads; it changes
    /// nothing already played.
    pub fn set_seed(&mut self, seed: u64)
        ensures
            final(self)@ == (State { seed, ..old(self)@ }),
    {
        self.seed = seed;
    }

    /// What is registered for video `name`.
    pub fn video(&self, name: &str) -> (r: Option<VideoInfo>)
        ensures
            r == lookup(self@.videos, name@),
    {
        match self.videos.get(name) {
            Some(info) => Some(*info),
            None => None,
        }
    }

    /// The pixels registered under `name`, if any.
    pub fn image(&self, name: &str) -> (r: Option<&ImageData>)
        ensures
            match r {
                Some(data) => lookup(self@.images, name@) == Some(*data),
                None => lookup(self@.images, name@) is None,
            },
    {
        self.images.get(name)
    }

    /// Register (or replace) named vector artwork that vector layers reference: paths with
    /// fills and strokes in the artwork's own units.
    pub fn set_vector(&mut self, name: &str, vector: Vector) -> (r: Result<(), Error>)
        ensures
            if less(num(0), vector.width) && less(num(0), vector.height) {
                r is Ok && final(self)@ == (State {
                    vectors: inserted(old(self)@.vectors, name@, vector),
                    ..old(self)@
                })
            } else {
                final(self)@ == old(self)@ && (r matches Err(e) && e@ == Problem::InvalidShow(
                    "vector "@ + quoted_text(name@) + ": size "@ + display_text(vector.width)
                        + "x"@ + display_text(vector.height) + " is not above 0"@,
                ))
            },
    {
        if !(num(0).lt(vector.width) && num(0).lt(vector.height)) {
            let mut what = joined("vector ", quoted(name).as_str());
            what.append(": size ");
            what.append(display(vector.width).as_str());
            what.append("x");
            what.append(display(vector.height).as_str());
            what.append(" is not above 0");
            return Err(Error::InvalidShow(what));
        }
        self.vectors.insert(owned(name), vector);
        Ok(())
    }

    /// The vector artwork registered under `name`, if any.
    pub fn vector(&self, name: &str) -> (r: Option<&Vector>)
        ensures
            match r {
                Some(data) => lookup(self@.vectors, name@) == Some(*data),
                None => lookup(self@.vectors, name@) is None,
            },
    {
        self.vectors.get(name)
    }

    /// Fields of the loaded show document that the engine did not understand and ignored, and
    /// bindings that quietly do nothing.
    pub fn load_warnings(&self) -> (r: &[String])
        ensures
            texts(r@) == self@.load_warnings,
    {
        self.load_warnings.as_slice()
    }

    pub fn show(&self) -> (r: Option<&Show>)
        ensures
            match r {
                Some(show) => self@.show == Some(*show),
                None => self@.show is None,
            },
    {
        match &self.show {
            Some(show) => Some(show),
            None => None,
        }
    }

    /// Name of the active scene, if the show has scenes.
    pub fn active_scene(&self) -> (r: Option<&str>)
        ensures
            match r {
                Some(name) => self@.scene_name() == Some(name@),
                None => self@.scene_name() is None,
            },
    {
        match (&self.show, self.active_scene) {
            (Some(show), Some(scene)) => {
                if scene < show.scenes.len() {
                    Some(show.scenes[scene].name.as_str())
                } else {
                    None
                }
            },
            _ => None,
        }
    }

    /// The output in effect: what the active scene sets, over the show's.
    pub(crate) fn effective_output(&self) -> (r: Output)
        ensures
            r@ == self@.output(),
    {
        let show = match &self.show {
            Some(show) => show,
            None => {
                return Output { mode: None, tint: None, scaling: None, passes: None };
            },
        };
        let none = Output { mode: None, tint: None, scaling: None, passes: None };
        let over = match self.active_scene {
            Some(scene) => {
                if scene < show.scenes.len() {
                    match &show.scenes[scene].output {
                        Some(output) => output.over(&show.output),
                        None => none.over(&show.output),
                    }
                } else {
                    none.over(&show.output)
                }
            },
            None => none.over(&show.output),
        };
        over
    }

    /// Output color handling for the current frame (the active scene's settings over the
    /// show's). Full color when no show is loaded.
    pub fn output(&self) -> (r: OutputColor)
        ensures
            r == (match resolved_output(self@.output()) {
                Some(color) => color,
                None => full_color(),
            }),
    {
        match OutputColor::from_output(&self.effective_output()) {
            Some(color) => color,
            None => OutputColor::rgb(),
        }
    }

    /// Effects hosts apply to the current frame as they show it, in order.
    pub fn passes(&self) -> (r: Vec<Pass>)
        ensures
            r@ == (match self@.output().passes {
                Some(passes) => passes,
                None => Seq::empty(),
            }),
    {
        match self.effective_output().passes {
            Some(passes) => passes,
            None => {
                let none: Vec<Pass> = Vec::new();
                assert(none@ =~= Seq::<Pass>::empty());
                none
            },
        }
    }

    /// How hosts should scale the current frame up to their surface.
    pub fn scaling(&self) -> (r: Scaling)
        ensures
            r == (match self@.output().scaling {
                Some(scaling) => scaling,
                None => Scaling::Smooth,
            }),
    {
        match self.effective_output().scaling {
            Some(scaling) => scaling,
            None => Scaling::Smooth,
        }
    }
}

impl State {
    pub open spec fn scene_name(self) -> Option<Seq<char>> {
        match (self.show, self.active_scene) {
            (Some(show), Some(scene)) => if scene < show.scenes@.len() {
                Some(show.scenes@[scene as int].name@)
            } else {
                None
            },
            _ => None,
        }
    }

    /// The output in effect: what the active scene sets, over the show's.
    pub open spec fn output(self) -> OutputSet {
        match self.show {
            None => OutputSet::unset(),
            Some(show) => match self.active_scene {
                Some(scene) => if scene < show.scenes@.len()
                    && show.scenes@[scene as int].output is Some {
                    show.scenes@[scene as int].output->0@.over(show.output@)
                } else {
                    show.output@
                },
                None => show.output@,
            },
        }
    }
}

} // verus!
