//! Loading a show.

use crate::json::{ignored, ignored_fields, json_of, Json, Tree};
use crate::model::{either, FontStyle, Show, FORMAT};
use crate::names::{lookup, NameMap};
use crate::num::{less, num};
use crate::shape::color_from;
use crate::state::{texts, Engine, Error, Problem, State};
use crate::survey::{binding_sites, reel_sites, Sought};
use crate::text::{joined, owned, quoted};
use crate::uploads::TextNumbers;
use crate::validate::{
    check_outputs, color_problem, complaint_if, outputs_problem, says, show_problem, validate,
    worded,
};
use crate::warn::{quiet_bindings, show_remarks};
use vstd::prelude::*;

verus! {

/// What a show document comes to before its fonts are looked at: a newer format is refused
/// before anything else is interpreted, as its fields may mean something else.
pub open spec fn read_show(raw: Result<Tree, Seq<char>>, show: Result<Show, Seq<char>>) -> Result<
    Show,
    Problem,
> {
    match raw {
        Err(words) => Err(Problem::InvalidShow(words)),
        Ok(tree) => match tree.whole_member("format"@) {
            Some(found) => if found > FORMAT {
                Err(Problem::UnsupportedFormat(found, FORMAT))
            } else {
                checked_show(show)
            },
            None => checked_show(show),
        },
    }
}

/// A show that passes the checks that no font decides.
pub open spec fn checked_show(show: Result<Show, Seq<char>>) -> Result<Show, Problem> {
    match show {
        Err(words) => Err(Problem::InvalidShow(words)),
        Ok(show) => if show.format == 0 {
            Err(Problem::InvalidShow("format 0 does not exist"@))
        } else {
            match either(
                color_problem(Some(show.background@)),
                either(outputs_problem(show), show_problem(show)),
            ) {
                Some(problem) => Err(problem),
                None => Ok(show),
            }
        },
    }
}

impl State {
    /// What is wrong with a font style and the kind of font that is registered for it.
    pub open spec fn font_fault(self, style: FontStyle) -> Option<Seq<char>> {
        if lookup(self.outline_fonts, style.file@) is Some {
            match style.size {
                Some(size) => if less(num(0), size) {
                    None
                } else {
                    Some("needs a size above 0"@)
                },
                None => Some("uses an outline font and needs a size"@),
            }
        } else if lookup(self.fonts, style.file@) is Some && style.size is Some {
            Some("uses a bitmap font, which has one fixed size: remove size"@)
        } else {
            None
        }
    }

    /// What is wrong with the font styles, from `from` on.
    pub open spec fn fonts_fault(self, fonts: Seq<(Seq<char>, FontStyle)>, from: int) -> Option<Problem>
        decreases fonts.len() - from,
    {
        if from < 0 || from >= fonts.len() {
            None
        } else {
            either(
                complaint_if("font style "@, fonts[from].0, self.font_fault(fonts[from].1)),
                self.fonts_fault(fonts, from + 1),
            )
        }
    }

    /// With a show loaded and put to its beginning.
    pub open spec fn loaded(self, show: Show, warnings: Seq<Seq<char>>) -> State {
        State {
            show: Some(show),
            faces: Seq::empty(),
            rasters: Seq::empty(),
            load_warnings: warnings,
            transition_sites: Sought::Transitions.show_places(show),
            debounce_sites: Sought::Debounces.show_places(show),
            reel_sites: Sought::Reels.show_places(show),
            ..self
        }.restart()
    }

    /// What loading a document comes to: the engine with the show loaded, or what is wrong
    /// with it. `kept` is what of the document was understood, as far as that is known.
    pub open spec fn load(
        self,
        raw: Result<Tree, Seq<char>>,
        show: Result<Show, Seq<char>>,
        kept: Result<Tree, Seq<char>>,
    ) -> Result<State, Problem> {
        match read_show(raw, show) {
            Err(problem) => Err(problem),
            Ok(show) => match self.fonts_fault(show.fonts@, 0) {
                Some(problem) => Err(problem),
                None => Ok(
                    self.loaded(show, load_remarks(raw, kept, show) + self.artwork_remarks(show)),
                ),
            },
        }
    }
}

/// What is said of a document that was loaded: the fields it has that mean nothing, and the
/// bindings that will quietly do nothing.
pub open spec fn load_remarks(
    raw: Result<Tree, Seq<char>>,
    kept: Result<Tree, Seq<char>>,
    show: Show,
) -> Seq<Seq<char>> {
    (match (raw, kept) {
        (Ok(given), Ok(understood)) => ignored(given, understood, Seq::empty()),
        _ => Seq::empty(),
    }) + show_remarks(show)
}

/// What a result holds, by value.
pub open spec fn tree_result(r: Result<Json, String>) -> Result<Tree, Seq<char>> {
    match r {
        Ok(json) => Ok(json@),
        Err(words) => Err(words@),
    }
}

/// What a result holds, by value.
pub open spec fn show_result(r: Result<Show, String>) -> Result<Show, Seq<char>> {
    match r {
        Ok(show) => Ok(show),
        Err(words) => Err(words@),
    }
}

fn check_show(show: &Show) -> (r: Option<Error>)
    ensures
        match (r, checked_show(Ok(*show))) {
            (Some(e), Err(problem)) => e@ == problem,
            (None, Ok(same)) => same == *show,
            _ => false,
        },
{
    if show.format == 0 {
        return Some(Error::InvalidShow(owned("format 0 does not exist")));
    }
    if let Err(e) = color_from(&show.background) {
        return Some(e);
    }
    let outputs = check_outputs(show);
    if outputs.is_some() {
        return outputs;
    }
    match validate(show) {
        Ok(()) => None,
        Err(e) => Some(e),
    }
}

impl Engine {
    fn font_problem(&self, style: &FontStyle) -> (r: Option<&'static str>)
        ensures
            worded(r) == self@.font_fault(*style),
    {
        if self.outline_fonts.contains(style.file.as_str()) {
            match style.size {
                Some(size) => {
                    if num(0).lt(size) {
                        None
                    } else {
                        Some("needs a size above 0")
                    }
                },
                None => Some("uses an outline font and needs a size"),
            }
        } else if self.fonts.contains(style.file.as_str()) && style.size.is_some() {
            Some("uses a bitmap font, which has one fixed size: remove size")
        } else {
            None
        }
    }

    fn check_styles(&self, show: &Show) -> (r: Option<Error>)
        ensures
            says(r, self@.fonts_fault(show.fonts@, 0)),
    {
        let n: usize = show.fonts.len();
        let mut i: usize = 0;
        while i < n
            invariant
                i <= n == show.fonts@.len(),
                self@.fonts_fault(show.fonts@, 0) == self@.fonts_fault(show.fonts@, i as int),
            decreases n - i,
        {
            if let Some(what) = self.font_problem(show.fonts.value_at(i)) {
                let mut text = joined(
                    "font style ",
                    quoted(show.fonts.name_at(i).as_str()).as_str(),
                );
                text.append(" ");
                text.append(what);
                return Some(Error::InvalidShow(text));
            }
            i = i + 1;
        }
        None
    }

    /// Load a show from its JSON description, replacing any current show and resetting all
    /// runtime state. The first scene (if any) becomes active; autoplay timelines start at 0.
    ///
    /// `show` is what the description was read as, or why it could not be, and `understood` is
    /// that show written as JSON again: what `json` says beyond it is warned about.
    pub fn load_show(&mut self, json: &str, show: Result<Show, String>, understood: &str) -> (r:
        Result<(), Error>)
        ensures
            match old(self)@.load(json_of(json@), show_result(show), json_of(understood@)) {
                Ok(next) => r is Ok && final(self)@ == next,
                Err(problem) => (r matches Err(e) && e@ == problem) && final(self)@ == old(self)@,
            },
    {
        let raw = Json::read(json);
        let kept = Json::read(understood);
        assert(tree_result(raw) == json_of(json@));
        assert(tree_result(kept) == json_of(understood@));
        self.accept_show(raw, show, kept)
    }

    /// Load a show that was read: `raw` is the document, `show` what it was read as, and `kept`
    /// that show written as a document again.
    pub fn accept_show(
        &mut self,
        raw: Result<Json, String>,
        show: Result<Show, String>,
        kept: Result<Json, String>,
    ) -> (r: Result<(), Error>)
        ensures
            match old(self)@.load(tree_result(raw), show_result(show), tree_result(kept)) {
                Ok(next) => r is Ok && final(self)@ == next,
                Err(problem) => (r matches Err(e) && e@ == problem) && final(self)@ == old(self)@,
            },
    {
        let given = match raw {
            Ok(given) => given,
            Err(e) => {
                return Err(Error::InvalidShow(e));
            },
        };
        // Refuse newer formats before interpreting anything else: their fields may mean
        // something this engine would get wrong.
        if let Some(found) = given.whole_member("format") {
            if found > FORMAT as u64 {
                return Err(Error::UnsupportedFormat { found, supported: FORMAT });
            }
        }
        let show = match show {
            Ok(show) => show,
            Err(e) => {
                return Err(Error::InvalidShow(e));
            },
        };
        if let Some(e) = check_show(&show) {
            return Err(e);
        }
        if let Some(e) = self.check_styles(&show) {
            return Err(e);
        }
        let mut warnings: Vec<String> = Vec::new();
        assert(texts(warnings@) =~= Seq::<Seq<char>>::empty());
        if let Ok(understood) = &kept {
            proof {
                reveal_strlit("");
                assert(""@ =~= Seq::<char>::empty());
            }
            ignored_fields(&given, understood, "", &mut warnings);
        }
        quiet_bindings(&show, &mut warnings);
        self.celled_artwork(&show, &mut warnings);
        let ghost said = load_remarks(tree_result(raw), tree_result(kept), show)
            + self@.artwork_remarks(show);
        assert(texts(warnings@) =~= said);
        let (transitions, debounces) = binding_sites(&show);
        self.transition_sites = transitions;
        self.debounce_sites = debounces;
        self.reel_sites = reel_sites(&show);
        self.load_warnings = warnings;
        self.faces = NameMap::new();
        self.rasters = TextNumbers::new();
        self.show = Some(show);
        assert(self@ =~= State {
            show: Some(show),
            faces: Seq::empty(),
            rasters: Seq::empty(),
            load_warnings: said,
            transition_sites: Sought::Transitions.show_places(show),
            debounce_sites: Sought::Debounces.show_places(show),
            reel_sites: Sought::Reels.show_places(show),
            ..old(self)@
        });
        self.restart();
        Ok(())
    }
}

} // verus!
