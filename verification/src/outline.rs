//! Outline (TrueType / OpenType) fonts: checking them, and placing glyphs by their advance
//! widths.

use crate::font::{line_views, split, split_text};
use crate::model::Align;
use crate::num::{
    at_most, equal, from_int, max_of, min_of, num, opposite_of, product_of, sum_of, Num,
};
use crate::segments::{LARGEST, LOWEST};
use skrifa::{FontRef, MetadataProvider};
use std::collections::HashMap;
use vstd::prelude::*;

verus! {

/// What is wrong with the bytes of a font file, if anything.
pub uninterp spec fn font_error(bytes: Seq<u8>) -> Option<Seq<char>>;

/// `skrifa::FontRef::new`: whether the bytes hold a font that can be read, and else why not,
/// as its error prints. The answer is a function of the bytes alone.
#[verifier::external_body]
pub(crate) fn font_problem(bytes: &Vec<u8>) -> (r: Option<String>)
    ensures
        match r {
            Some(e) => font_error(bytes@) == Some(e@),
            None => font_error(bytes@) is None,
        },
{
    FontRef::new(bytes.as_slice()).err().map(|e| e.to_string())
}

/// The id of the glyph a font maps a character to.
pub uninterp spec fn glyph_named(bytes: Seq<u8>, c: char) -> Option<u32>;

/// `skrifa::charmap::Charmap::map`, on the character map of the font in these bytes: the id of
/// the glyph that stands for a character, `None` where the font has none or cannot be read. The
/// answer is a function of the bytes and the character alone.
#[verifier::external_body]
pub(crate) fn glyph_in(bytes: &Vec<u8>, c: char) -> (r: Option<u32>)
    ensures
        r == glyph_named(bytes@, c),
{
    FontRef::new(bytes.as_slice()).ok()?.charmap().map(c).map(|id| id.to_u32())
}

/// The measures of one glyph at a size.
#[derive(Clone, Copy, Debug, PartialEq, Eq)]
pub struct OutlineGlyph {
    pub advance: Num,
    /// The lowest and the highest point of its outline, counted up from the baseline, where
    /// the font says.
    pub bounds: Option<(Num, Num)>,
}

/// The measures of an outline font at one size.
#[derive(Debug)]
pub struct OutlineFace {
    pub ascent: Num,
    pub descent: Num,
    pub leading: Num,
    /// The measures of its glyphs, by their id in the font.
    pub glyphs: HashMap<u32, OutlineGlyph>,
}

impl View for OutlineFace {
    type V = OutlineFace;

    open spec fn view(&self) -> OutlineFace {
        *self
    }
}

/// One glyph of a run: its id in the font and the position of its origin on the baseline.
#[derive(Clone, Copy, Debug, PartialEq, Eq, Structural)]
pub struct PlacedGlyph {
    pub id: u32,
    pub x: Num,
    pub y: Num,
}

/// Text laid out in a box.
#[derive(Debug)]
pub struct Layout {
    /// Glyphs with their baseline origins, relative to the box's top-left.
    pub glyphs: Vec<PlacedGlyph>,
    /// The box the text was laid out in: the one asked for, else the text's own size.
    pub container: [Num; 2],
}

/// A line without the carriage returns at its end.
pub open spec fn unreturned(line: Seq<char>) -> Seq<char>
    decreases line.len(),
{
    if line.len() > 0 && line.last() == '\r' {
        unreturned(line.drop_last())
    } else {
        line
    }
}

pub open spec fn run_lines(text: Seq<char>) -> Seq<Seq<char>> {
    split(text).map_values(|l: Seq<char>| unreturned(l))
}

fn run_lines_of(text: &str) -> (r: Vec<Vec<char>>)
    ensures
        line_views(r@) == run_lines(text@),
        r@.len() > 0,
{
    let raw = split_text(text);
    let ghost all = run_lines(text@);
    let mut out: Vec<Vec<char>> = Vec::new();
    let mut i: usize = 0;
    assert(line_views(out@) =~= all.take(0));
    while i < raw.len()
        invariant
            i <= raw.len(),
            line_views(raw@) == split(text@),
            all == run_lines(text@),
            out@.len() == i,
            line_views(out@) == all.take(i as int),
        decreases raw.len() - i,
    {
        let line = &raw[i];
        assert(split(text@)[i as int] == line@);
        let mut n: usize = line.len();
        assert(line@.take(n as int) =~= line@);
        while n > 0 && line[n - 1] == '\r'
            invariant
                n <= line.len(),
                unreturned(line@) == unreturned(line@.take(n as int)),
            decreases n,
        {
            assert(line@.take(n as int).drop_last() =~= line@.take(n as int - 1));
            n = n - 1;
        }
        let cut = crate::font::part(line, 0, n);
        assert(cut@ =~= line@.take(n as int));
        let ghost was = line_views(out@);
        out.push(cut);
        i = i + 1;
        assert(line_views(out@) =~= was.push(cut@));
        assert(line_views(out@) =~= all.take(i as int));
    }
    assert(all.take(i as int) =~= all);
    out
}

/// The glyph a character is shown by: glyph 0, the font's box for missing ones, where it lacks
/// the character.
pub open spec fn shown_glyph(bytes: Seq<u8>, c: char) -> u32 {
    match glyph_named(bytes, c) {
        Some(id) => id,
        None => 0,
    }
}

/// The glyphs of a line.
pub open spec fn line_ids(bytes: Seq<u8>, line: Seq<char>) -> Seq<u32> {
    line.map_values(|c: char| shown_glyph(bytes, c))
}

/// The glyphs of the lines of a text.
pub open spec fn run_ids(bytes: Seq<u8>, text: Seq<char>) -> Seq<Seq<u32>> {
    run_lines(text).map_values(|l: Seq<char>| line_ids(bytes, l))
}

pub open spec fn id_views(list: Seq<Vec<u32>>) -> Seq<Seq<u32>> {
    list.map_values(|v: Vec<u32>| v@)
}

fn run_ids_of(bytes: &Vec<u8>, text: &str) -> (r: Vec<Vec<u32>>)
    ensures
        id_views(r@) == run_ids(bytes@, text@),
        r@.len() > 0,
{
    let lines = run_lines_of(text);
    let ghost all = run_ids(bytes@, text@);
    let mut out: Vec<Vec<u32>> = Vec::new();
    let mut i: usize = 0;
    assert(id_views(out@) =~= all.take(0));
    while i < lines.len()
        invariant
            i <= lines.len(),
            line_views(lines@) == run_lines(text@),
            all == run_ids(bytes@, text@),
            out@.len() == i,
            id_views(out@) == all.take(i as int),
        decreases lines.len() - i,
    {
        let line = &lines[i];
        assert(run_lines(text@)[i as int] == line@);
        let ghost own = line_ids(bytes@, line@);
        let mut ids: Vec<u32> = Vec::new();
        let mut j: usize = 0;
        while j < line.len()
            invariant
                j <= line.len(),
                own == line_ids(bytes@, line@),
                ids@ == own.take(j as int),
            decreases line.len() - j,
        {
            let id: u32 = match glyph_in(bytes, line[j]) {
                Some(id) => id,
                None => 0,
            };
            ids.push(id);
            j = j + 1;
            assert(ids@ =~= own.take(j as int));
        }
        assert(ids@ =~= own);
        let ghost was = id_views(out@);
        out.push(ids);
        i = i + 1;
        assert(id_views(out@) =~= was.push(ids@));
        assert(id_views(out@) =~= all.take(i as int));
    }
    assert(all.take(i as int) =~= all);
    out
}

/// The glyphs of the first `n` of some characters; nothing where the font lacks one.
pub open spec fn all_glyphs(bytes: Seq<u8>, characters: Seq<char>, n: nat) -> Option<Seq<u32>>
    decreases n,
{
    if n == 0 || n > characters.len() {
        Some(Seq::empty())
    } else {
        match (all_glyphs(bytes, characters, (n - 1) as nat), glyph_named(bytes, characters[n - 1])) {
            (Some(before), Some(id)) => Some(before.push(id)),
            _ => None,
        }
    }
}

impl OutlineFace {
    /// The measures of a glyph; it takes no room where they are not known.
    pub open spec fn glyph_of(self, id: u32) -> OutlineGlyph {
        if self.glyphs@.contains_key(id) {
            self.glyphs@[id]
        } else {
            OutlineGlyph { advance: num(0), bounds: None }
        }
    }

    pub open spec fn line_height(self) -> Num {
        sum_of(sum_of(self.ascent, opposite_of(self.descent)), self.leading)
    }

    /// Where the pen stands before glyph `n` of a line.
    pub open spec fn pen(self, line: Seq<u32>, n: nat) -> Num
        decreases n,
    {
        if n == 0 || n > line.len() {
            num(0)
        } else {
            sum_of(self.pen(line, (n - 1) as nat), self.glyph_of(line[n - 1]).advance)
        }
    }

    pub open spec fn widest(self, lines: Seq<Seq<u32>>, n: nat) -> Num
        decreases n,
    {
        if n == 0 || n > lines.len() {
            num(0)
        } else {
            max_of(
                self.widest(lines, (n - 1) as nat),
                self.pen(lines[n - 1], lines[n - 1].len()),
            )
        }
    }

    /// The size of a text block; nothing where there is no text at all.
    pub open spec fn block(self, lines: Seq<Seq<u32>>, blank: bool) -> (Num, Num) {
        if blank {
            (num(0), num(0))
        } else {
            (
                self.widest(lines, lines.len()),
                product_of(self.line_height(), from_int(lines.len() as int)),
            )
        }
    }

    /// The box a text is laid out in.
    pub open spec fn container(
        self,
        lines: Seq<Seq<u32>>,
        blank: bool,
        size: Option<[Num; 2]>,
    ) -> [Num; 2] {
        match size {
            Some(size) => size,
            None => [self.block(lines, blank).0, self.block(lines, blank).1],
        }
    }

    /// The first `n` glyphs of a line, placed.
    pub open spec fn line_glyphs(self, line: Seq<u32>, x: Num, y: Num, n: nat) -> Seq<PlacedGlyph>
        decreases n,
    {
        if n == 0 || n > line.len() {
            Seq::empty()
        } else {
            self.line_glyphs(line, x, y, (n - 1) as nat).push(
                PlacedGlyph { id: line[n - 1], x: sum_of(x, self.pen(line, (n - 1) as nat)), y },
            )
        }
    }

    /// Where line `i` starts: its left end, and its baseline.
    pub open spec fn line_start(
        self,
        lines: Seq<Seq<u32>>,
        blank: bool,
        size: Option<[Num; 2]>,
        align: Align,
        i: int,
    ) -> (Num, Num) {
        let (w, h) = self.block(lines, blank);
        let c = self.container(lines, blank, size);
        let per_line = lines.len() > 1 && !align.left();
        let line = lines[i];
        (
            if per_line {
                Align::start(align.left(), align.right(), self.pen(line, line.len()), c[0])
            } else {
                Align::start(align.left(), align.right(), w, c[0])
            },
            sum_of(
                sum_of(
                    Align::start(align.top(), align.bottom(), h, c[1]),
                    product_of(self.line_height(), from_int(i)),
                ),
                self.ascent,
            ),
        )
    }

    /// The glyphs of the first `n` lines, placed.
    pub open spec fn laid_out(
        self,
        lines: Seq<Seq<u32>>,
        blank: bool,
        size: Option<[Num; 2]>,
        align: Align,
        n: nat,
    ) -> Seq<PlacedGlyph>
        decreases n,
    {
        if n == 0 || n > lines.len() {
            Seq::empty()
        } else {
            let line = lines[n - 1];
            let (x, y) = self.line_start(lines, blank, size, align, n - 1);
            self.laid_out(lines, blank, size, align, (n - 1) as nat) + self.line_glyphs(
                line,
                x,
                y,
                line.len(),
            )
        }
    }

    fn glyph(&self, id: u32) -> (r: OutlineGlyph)
        ensures
            r == self.glyph_of(id),
    {
        broadcast use vstd::std_specs::hash::group_hash_axioms;

        match self.glyphs.get(&id) {
            Some(g) => *g,
            None => OutlineGlyph { advance: num(0), bounds: None },
        }
    }

    fn line_width(&self, line: &Vec<u32>) -> (r: Num)
        ensures
            r == self.pen(line@, line@.len()),
    {
        let mut pen = num(0);
        let mut i: usize = 0;
        while i < line.len()
            invariant
                i <= line.len(),
                pen == self.pen(line@, i as nat),
            decreases line.len() - i,
        {
            pen = pen.plus(self.glyph(line[i]).advance);
            i = i + 1;
        }
        pen
    }

    pub(crate) fn line_step(&self) -> (r: Num)
        ensures
            r == self.line_height(),
    {
        self.ascent.minus(self.descent).plus(self.leading)
    }

    /// Lay `text` out in the font of these bytes: lines split on `\n`, the block aligned in
    /// `container` (its own size when `None`) and, for multi-line text that is not left
    /// aligned, each line within the container's width. A character the font lacks becomes
    /// glyph 0, the font's "missing" box.
    pub fn layout(
        &self,
        bytes: &Vec<u8>,
        text: &str,
        container: Option<[Num; 2]>,
        align: Align,
    ) -> (r: Layout)
        ensures
            ({
                let lines = run_ids(bytes@, text@);
                let blank = text@.len() == 0;
                &&& r.container == self.container(lines, blank, container)
                &&& r.glyphs@ == self.laid_out(lines, blank, container, align, lines.len())
            }),
    {
        let lines = run_ids_of(bytes, text);
        self.arrange(&lines, text.unicode_len() == 0, container, align)
    }

    /// Lay lines of glyphs out, given by their ids in the font, as [`OutlineFace::layout`] does;
    /// `blank` where there is no text at all.
    pub fn arrange(
        &self,
        lines: &Vec<Vec<u32>>,
        blank: bool,
        container: Option<[Num; 2]>,
        align: Align,
    ) -> (r: Layout)
        ensures
            r.container == self.container(id_views(lines@), blank, container),
            r.glyphs@ == self.laid_out(id_views(lines@), blank, container, align, lines@.len()),
    {
        let ghost all = id_views(lines@);
        let step = self.line_step();
        let mut widest = num(0);
        let mut i: usize = 0;
        while i < lines.len()
            invariant
                i <= lines.len(),
                id_views(lines@) == all,
                widest == self.widest(all, i as nat),
            decreases lines.len() - i,
        {
            assert(all[i as int] == lines@[i as int]@);
            widest = widest.max(self.line_width(&lines[i]));
            i = i + 1;
        }
        assert(lines@.len() == all.len());
        let (bw, bh) = if blank {
            (num(0), num(0))
        } else {
            (widest, step.times(Num::from_u64(lines.len() as u64)))
        };
        let size: [Num; 2] = match container {
            Some(size) => size,
            None => [bw, bh],
        };
        let (bx, by) = align.offset(bw, bh, size[0], size[1]);
        let per_line = lines.len() > 1 && !align.is_left();
        let mut glyphs: Vec<PlacedGlyph> = Vec::new();
        let mut k: usize = 0;
        while k < lines.len()
            invariant
                k <= lines.len(),
                id_views(lines@) == all,
                lines@.len() == all.len(),
                size == self.container(all, blank, container),
                step == self.line_height(),
                per_line == (all.len() > 1 && !align.left()),
                bx == Align::start(align.left(), align.right(), self.block(all, blank).0, size[0]),
                by == Align::start(align.top(), align.bottom(), self.block(all, blank).1, size[1]),
                glyphs@ == self.laid_out(all, blank, container, align, k as nat),
            decreases lines.len() - k,
        {
            let line = &lines[k];
            assert(all[k as int] == line@);
            let x0 = if per_line {
                align.offset(self.line_width(line), num(0), size[0], num(0)).0
            } else {
                bx
            };
            let y = by.plus(step.times(Num::from_u64(k as u64))).plus(self.ascent);
            assert((x0, y) == self.line_start(all, blank, container, align, k as int));
            let ghost before = glyphs@;
            let mut pen = num(0);
            let mut j: usize = 0;
            assert(before + Seq::<PlacedGlyph>::empty() =~= before);
            while j < line.len()
                invariant
                    j <= line.len(),
                    pen == self.pen(line@, j as nat),
                    glyphs@ == before + self.line_glyphs(line@, x0, y, j as nat),
                decreases line.len() - j,
            {
                let p = PlacedGlyph { id: line[j], x: x0.plus(pen), y };
                let ghost here = self.line_glyphs(line@, x0, y, j as nat);
                glyphs.push(p);
                assert((before + here).push(p) =~= before + here.push(p));
                pen = pen.plus(self.glyph(line[j]).advance);
                j = j + 1;
            }
            k = k + 1;
        }
        Layout { glyphs, container: size }
    }

    /// How high the ink of the first `n` of some glyphs reaches and how far it falls, measured
    /// down from the top of the line.
    pub open spec fn ink_of(self, ids: Seq<u32>, n: nat) -> (Num, Num)
        decreases n,
    {
        if n == 0 || n > ids.len() {
            (num(LARGEST), num(LOWEST))
        } else {
            let (top, bottom) = self.ink_of(ids, (n - 1) as nat);
            match self.glyph_of(ids[n - 1]).bounds {
                None => (top, bottom),
                Some((low, high)) => if equal(low, high) {
                    (top, bottom)
                } else {
                    (
                        min_of(top, sum_of(self.ascent, opposite_of(high))),
                        max_of(bottom, sum_of(self.ascent, opposite_of(low))),
                    )
                },
            }
        }
    }

    /// The ink of some glyphs; nothing where none of them has any.
    pub open spec fn inked(self, ids: Seq<u32>) -> Option<(Num, Num)> {
        let (top, bottom) = self.ink_of(ids, ids.len());
        if at_most(top, bottom) {
            Some((top, bottom))
        } else {
            None
        }
    }

    /// The ink of some characters in the font of these bytes.
    pub open spec fn ink_in(self, bytes: Seq<u8>, characters: Seq<char>) -> Option<(Num, Num)> {
        match all_glyphs(bytes, characters, characters.len()) {
            Some(ids) => self.inked(ids),
            None => None,
        }
    }

    /// How high the ink of `characters` reaches and how far it falls in the font of these
    /// bytes, measured down from the top of the line they are laid out in. `None` when the font
    /// lacks one of them, or none of them has any ink.
    pub fn ink(&self, bytes: &Vec<u8>, characters: &Vec<char>) -> (r: Option<(Num, Num)>)
        ensures
            r == self.ink_in(bytes@, characters@),
    {
        let mut ids: Vec<u32> = Vec::new();
        let mut i: usize = 0;
        while i < characters.len()
            invariant
                i <= characters.len(),
                all_glyphs(bytes@, characters@, i as nat) == Some(ids@),
            decreases characters.len() - i,
        {
            match glyph_in(bytes, characters[i]) {
                Some(id) => {
                    ids.push(id);
                },
                None => {
                    proof {
                        lemma_glyphs_stop(bytes@, characters@, (i + 1) as nat, characters@.len());
                    }
                    return None;
                },
            }
            i = i + 1;
        }
        self.ink_among(&ids)
    }

    /// The ink of some glyphs, given by their ids in the font, as [`OutlineFace::ink`] finds it.
    pub fn ink_among(&self, ids: &Vec<u32>) -> (r: Option<(Num, Num)>)
        ensures
            r == self.inked(ids@),
    {
        let mut top = num(LARGEST);
        let mut bottom = num(LOWEST);
        let mut i: usize = 0;
        while i < ids.len()
            invariant
                i <= ids.len(),
                self.ink_of(ids@, i as nat) == (top, bottom),
            decreases ids.len() - i,
        {
            if let Some((low, high)) = self.glyph(ids[i]).bounds {
                if !low.same(high) {
                    top = top.min(self.ascent.minus(high));
                    bottom = bottom.max(self.ascent.minus(low));
                }
            }
            i = i + 1;
        }
        if top.le(bottom) {
            Some((top, bottom))
        } else {
            None
        }
    }
}

proof fn lemma_glyphs_stop(bytes: Seq<u8>, characters: Seq<char>, n: nat, m: nat)
    requires
        n <= m <= characters.len(),
        all_glyphs(bytes, characters, n) is None,
    ensures
        all_glyphs(bytes, characters, m) is None,
    decreases m,
{
    if n < m {
        lemma_glyphs_stop(bytes, characters, n, (m - 1) as nat);
    }
}

} // verus!
