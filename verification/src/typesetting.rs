//! Where the glyphs of a text in a bitmap font come to stand.

use crate::exact::{is_at, lemma_finer, lemma_from_int_at, lemma_sum_at};
use crate::font::kerned;
use crate::geometry::lemma_aligned;
use crate::model::Align;
use crate::num::{floor_of, from_int, lemma_size_zero, one_unit, sum_of, to_i64_of, whole, Num};
use crate::placing::{anchor_of, at_fine};
use crate::raster::{before, draws, text_lines, to_i32_of, Styled};
use crate::rows::{lemma_fine_whole, lemma_floor_at};
use vstd::arithmetic::div_mod::lemma_fundamental_div_mod_converse;
use vstd::arithmetic::power2::{lemma2_to64, lemma_pow2_pos, pow2};
use vstd::prelude::*;

verus! {

/// A glyph that covers pixels is stamped in its line: to the right by all that the characters
/// before it take up, and by its own offset and kerning, and down by its own offset. A character
/// takes up its advance, what the style adds, and the kerning with the one before it.
pub proof fn lemma_glyph_in_line(
    styled: Styled,
    line: Seq<char>,
    x: int,
    y: int,
    n: nat,
    k: int,
) -> (j: int)
    requires
        0 <= k < n <= line.len(),
        styled.glyph(line[k]) matches Some(g) && draws(g),
        -0x1_0000_0000 < x < 0x1_0000_0000,
        -0x1_0000_0000 < y < 0x1_0000_0000,
        -0x1_0000_0000_0000 < styled.pen(line, k as nat) < 0x1_0000_0000_0000,
    ensures
        ({
            let list = styled.placed_line(line, x, y, n);
            let g = styled.glyph(line[k])->0;
            let kerning = kerned(styled.face, before(line, k), line[k]);
            let pen = styled.pen(line, k as nat);
            &&& 0 <= j < list.len()
            &&& list[j].glyph == g
            &&& list[j].x == x + pen + g.xoffset + kerning
            &&& list[j].y == y + g.yoffset
            &&& styled.pen(line, (k + 1) as nat) - pen == g.xadvance + styled.extra + kerning
        }),
    decreases n,
{
    let m = (n - 1) as nat;
    let rest = styled.placed_line(line, x, y, m);
    if k < m {
        let j = lemma_glyph_in_line(styled, line, x, y, m, k);
        assert(styled.placed_line(line, x, y, n)[j] == rest[j]);
        j
    } else {
        rest.len() as int
    }
}

/// A line that starts further on has all its glyphs further on, by as much.
pub proof fn lemma_line_moved(
    styled: Styled,
    line: Seq<char>,
    x: int,
    y: int,
    dx: int,
    dy: int,
    n: nat,
)
    requires
        n <= line.len(),
        -0x1_0000_0000 < x < 0x1_0000_0000 && -0x1_0000_0000 < x + dx < 0x1_0000_0000,
        -0x1_0000_0000 < y < 0x1_0000_0000 && -0x1_0000_0000 < y + dy < 0x1_0000_0000,
        forall|k: int|
            0 <= k <= n ==> -0x1_0000_0000_0000 < #[trigger] styled.pen(line, k as nat)
                < 0x1_0000_0000_0000,
    ensures
        ({
            let (a, b) = (
                styled.placed_line(line, x, y, n),
                styled.placed_line(line, x + dx, y + dy, n),
            );
            &&& a.len() == b.len()
            &&& forall|j: int|
                0 <= j < a.len() ==> (#[trigger] b[j]).x == a[j].x + dx && b[j].y == a[j].y + dy
                    && b[j].glyph == a[j].glyph
        }),
    decreases n,
{
    if n > 0 {
        lemma_line_moved(styled, line, x, y, dx, dy, (n - 1) as nat);
        assert(-0x1_0000_0000_0000 < styled.pen(line, ((n - 1) as int) as nat)
            < 0x1_0000_0000_0000);
    }
}

/// A whole number from a coordinate, rounded down.
proof fn lemma_coordinate(v: Num, a: int)
    requires
        is_at(v, a, 1064),
        -0x1000_0000 < a < 0x1000_0000,
    ensures
        to_i32_of(floor_of(v)) == a / 1024,
{
    reveal(to_i64_of);
    lemma_floor_at(v, a);
    lemma_pow2_pos(1074);
    let f = floor_of(v);
    let (k, u) = (a / 1024, one_unit() as int);
    let m = if k < 0 {
        -k
    } else {
        k
    };
    assert(m * u >= 0 && (k * u < 0) == (k < 0)) by (nonlinear_arith)
        requires
            u > 0,
            m >= 0,
    ;
    assert((-k) * u == -(k * u)) by (nonlinear_arith);
    assert(f.size() == m * u);
    lemma_fundamental_div_mod_converse(m * u, u, m, 0);
    assert(whole(f) == m);
    lemma_size_zero(f);
}

/// A line of a text stands in its box where the alignment puts it, on a whole pixel: one line as
/// the whole block does, one of several by itself. The lines are a line height apart.
#[verifier::rlimit(40)]
pub proof fn lemma_line_placed(
    styled: Styled,
    text: Seq<char>,
    size: [Num; 2],
    align: Align,
    i: int,
    x: int,
    y: int,
)
    requires
        0 <= i < text_lines(text).len() < 16,
        ({
            let w = if text_lines(text).len() > 1 && !align.left() {
                styled.line_width(text_lines(text)[i])
            } else {
                styled.block(text).0
            };
            let h = styled.block(text).1;
            &&& -16 < w < 16 && -16 < h < 16
            &&& at_fine(size[0], 1024 * w + 2 * x) && at_fine(size[1], 1024 * h + 2 * y)
        }),
        -16 < styled.face.line_height < 16,
    ensures
        ({
            let set = styled.setting(text, Some(size), align);
            &&& styled.line_x(set, text_lines(text)[i]) == (anchor_of(align).0 * x) / 1024
            &&& styled.line_y(set, i) == (anchor_of(align).1 * y) / 1024 + i
                * styled.face.line_height
        }),
{
    let set = styled.setting(text, Some(size), align);
    let line = text_lines(text)[i];
    let (bw, h) = styled.block(text);
    let w = if text_lines(text).len() > 1 && !align.left() {
        styled.line_width(line)
    } else {
        bw
    };
    lemma_fine_whole(w);
    lemma_fine_whole(h);
    lemma_aligned(
        align,
        from_int(w),
        from_int(h),
        size[0],
        size[1],
        1024 * w,
        1024 * h,
        x,
        y,
    );
    let (a, b) = (anchor_of(align).0 * x, anchor_of(align).1 * y);
    assert(-0x10_0000 < a < 0x10_0000 && -0x10_0000 < b < 0x10_0000) by (nonlinear_arith)
        requires
            a == anchor_of(align).0 * x,
            b == anchor_of(align).1 * y,
            0 <= anchor_of(align).0 <= 2,
            0 <= anchor_of(align).1 <= 2,
            -0x8000 < x < 0x8000,
            -0x8000 < y < 0x8000,
    ;
    lemma_coordinate(
        Align::start(align.left(), align.right(), from_int(w), size[0]),
        a,
    );
    let lh = styled.face.line_height as int;
    let down = i * lh;
    assert(-256 < down < 256) by (nonlinear_arith)
        requires
            down == i * lh,
            0 <= i < 16,
            -16 < lh < 16,
    ;
    lemma_from_int_at(down);
    lemma2_to64();
    lemma_finer(from_int(down), down, 1074, 1064);
    assert(down * pow2(10) == 1024 * down) by (nonlinear_arith)
        requires
            pow2(10) == 1024,
    ;
    lemma_sum_at(set.y, from_int(down), b, 1024 * down, 1064);
    lemma_coordinate(sum_of(set.y, from_int(down)), b + 1024 * down);
    assert((b + 1024 * down) / 1024 == b / 1024 + down);
}

} // verus!
