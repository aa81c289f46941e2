//! Boxes hold what they are the boxes of, and no more.

use crate::exact::lemma_compare;
use crate::num::{at_most, max_of, min_of, opposite_of, sum_of, Num};
use crate::path::{all_corners, bounds_of, extent, PathElement};
use crate::raster::{Stamp, Styled};
use vstd::prelude::*;

verus! {

/// A number is the least of one coordinate of some points: one of them has it, and none a smaller
/// one.
pub open spec fn is_least(x: Num, points: Seq<[Num; 2]>, axis: int) -> bool {
    &&& exists|k: int| 0 <= k < points.len() && (#[trigger] points[k])[axis] == x
    &&& forall|k: int| 0 <= k < points.len() ==> at_most(x, (#[trigger] points[k])[axis])
}

/// A number is the greatest of one coordinate of some points.
pub open spec fn is_greatest(x: Num, points: Seq<[Num; 2]>, axis: int) -> bool {
    &&& exists|k: int| 0 <= k < points.len() && (#[trigger] points[k])[axis] == x
    &&& forall|k: int| 0 <= k < points.len() ==> at_most((#[trigger] points[k])[axis], x)
}

/// Every coordinate of some points is a finite number.
pub open spec fn all_finite(points: Seq<[Num; 2]>) -> bool {
    forall|k: int|
        0 <= k < points.len() ==> (#[trigger] points[k])[0].finite() && points[k][1].finite()
}

proof fn lemma_smaller(x: Num, y: Num, z: Num)
    requires
        x.finite() && y.finite() && z.finite(),
    ensures
        at_most(x, z) ==> at_most(min_of(x, y), z),
        at_most(y, z) ==> at_most(min_of(x, y), z),
        at_most(z, x) ==> at_most(z, max_of(x, y)),
        at_most(z, y) ==> at_most(z, max_of(x, y)),
        at_most(y, y),
{
    lemma_compare(x, y);
    lemma_compare(y, x);
    lemma_compare(x, z);
    lemma_compare(y, z);
    lemma_compare(z, x);
    lemma_compare(z, y);
    lemma_compare(y, y);
}

proof fn lemma_extent(points: Seq<[Num; 2]>, n: nat)
    requires
        0 < n <= points.len(),
        all_finite(points),
    ensures
        ({
            let e = extent(points, n);
            let some = points.take(n as int);
            &&& is_least(e[0], some, 0) && is_least(e[1], some, 1)
            &&& is_greatest(e[2], some, 0) && is_greatest(e[3], some, 1)
        }),
    decreases n,
{
    let some = points.take(n as int);
    let e = extent(points, n);
    if n == 1 {
        assert(some[0] == points[0]);
        lemma_smaller(points[0][0], points[0][0], points[0][0]);
        lemma_smaller(points[0][1], points[0][1], points[0][1]);
        assert forall|k: int| 0 <= k < some.len() implies #[trigger] some[k] == points[0] by {}
    } else {
        let m = n - 1;
        lemma_extent(points, m as nat);
        let (before, b) = (points.take(m), extent(points, m as nat));
        assert(some =~= before.push(points[m]));
        lemma_least_pushed(before, points[m], b[0], 0);
        lemma_least_pushed(before, points[m], b[1], 1);
        lemma_greatest_pushed(before, points[m], b[2], 0);
        lemma_greatest_pushed(before, points[m], b[3], 1);
    }
}

proof fn lemma_least_pushed(points: Seq<[Num; 2]>, p: [Num; 2], x: Num, axis: int)
    requires
        is_least(x, points, axis),
        all_finite(points),
        p[0].finite() && p[1].finite(),
        axis == 0 || axis == 1,
    ensures
        is_least(min_of(x, p[axis]), points.push(p), axis),
{
    let all = points.push(p);
    let j = choose|k: int| 0 <= k < points.len() && (#[trigger] points[k])[axis] == x;
    assert(all[j][axis] == x && all[points.len() as int][axis] == p[axis]);
    let y = min_of(x, p[axis]);
    assert forall|k: int| 0 <= k < all.len() implies at_most(y, (#[trigger] all[k])[axis]) by {
        if k < points.len() {
            assert(all[k] == points[k]);
            lemma_smaller(x, p[axis], points[k][axis]);
        } else {
            lemma_smaller(x, p[axis], p[axis]);
        }
    }
}

proof fn lemma_greatest_pushed(points: Seq<[Num; 2]>, p: [Num; 2], x: Num, axis: int)
    requires
        is_greatest(x, points, axis),
        all_finite(points),
        p[0].finite() && p[1].finite(),
        axis == 0 || axis == 1,
    ensures
        is_greatest(max_of(x, p[axis]), points.push(p), axis),
{
    let all = points.push(p);
    let j = choose|k: int| 0 <= k < points.len() && (#[trigger] points[k])[axis] == x;
    assert(all[j][axis] == x && all[points.len() as int][axis] == p[axis]);
    let y = max_of(x, p[axis]);
    assert forall|k: int| 0 <= k < all.len() implies at_most((#[trigger] all[k])[axis], y) by {
        if k < points.len() {
            assert(all[k] == points[k]);
            lemma_smaller(x, p[axis], points[k][axis]);
        } else {
            lemma_smaller(x, p[axis], p[axis]);
        }
    }
}

/// The box of a path starts at the least of its points and ends at the greatest, along each axis.
pub proof fn lemma_path_bounds(elements: Seq<PathElement>) -> (far: [Num; 2])
    requires
        all_corners(elements, elements.len()).len() > 0,
        all_finite(all_corners(elements, elements.len())),
    ensures
        ({
            let points = all_corners(elements, elements.len());
            bounds_of(elements) matches Some(b) && {
                &&& is_least(b[0], points, 0) && is_least(b[1], points, 1)
                &&& is_greatest(far[0], points, 0) && is_greatest(far[1], points, 1)
                &&& b[2] == sum_of(far[0], opposite_of(b[0]))
                &&& b[3] == sum_of(far[1], opposite_of(b[1]))
            }
        }),
{
    let points = all_corners(elements, elements.len());
    lemma_extent(points, points.len());
    assert(points.take(points.len() as int) =~= points);
    let e = extent(points, points.len());
    [e[2], e[3]]
}

/// Whether a stamp lies in a box, and whether it touches each of its sides.
pub open spec fn holds_stamp(e: crate::raster::Extent, p: Stamp) -> bool {
    &&& e.x0 <= p.x && p.x + p.glyph.width <= e.x1
    &&& e.y0 <= p.y && p.y + p.glyph.height <= e.y1
}

/// The bitmap of a text is just large enough: every glyph lies in it, and each of its sides is
/// touched by one.
pub proof fn lemma_stamps_held(list: Seq<Stamp>, n: nat)
    requires
        0 < n <= list.len(),
    ensures
        ({
            let e = crate::raster::extent(list, n);
            &&& forall|k: int| 0 <= k < n ==> holds_stamp(e, #[trigger] list[k])
            &&& exists|k: int| 0 <= k < n && (#[trigger] list[k]).x == e.x0
            &&& exists|k: int| 0 <= k < n && (#[trigger] list[k]).y == e.y0
            &&& exists|k: int| 0 <= k < n && (#[trigger] list[k]).x + list[k].glyph.width == e.x1
            &&& exists|k: int| 0 <= k < n && (#[trigger] list[k]).y + list[k].glyph.height == e.y1
        }),
    decreases n,
{
    let e = crate::raster::extent(list, n);
    let p = list[n - 1];
    if n == 1 {
        assert(list[0].x == e.x0);
    } else {
        let m = (n - 1) as nat;
        lemma_stamps_held(list, m);
        let b = crate::raster::extent(list, m);
        let k0 = choose|k: int| 0 <= k < m && (#[trigger] list[k]).x == b.x0;
        let k1 = choose|k: int| 0 <= k < m && (#[trigger] list[k]).y == b.y0;
        let k2 = choose|k: int|
            0 <= k < m && (#[trigger] list[k]).x + list[k].glyph.width == b.x1;
        let k3 = choose|k: int|
            0 <= k < m && (#[trigger] list[k]).y + list[k].glyph.height == b.y1;
        assert(list[k0].x == b.x0 && list[k1].y == b.y0);
        assert(list[k2].x + list[k2].glyph.width == b.x1);
        assert(list[k3].y + list[k3].glyph.height == b.y1);
        assert(list[n - 1] == p);
    }
}

/// A block of text is as wide as the widest of its lines.
pub proof fn lemma_block_width(styled: Styled, lines: Seq<Seq<char>>, n: nat)
    requires
        0 < n <= lines.len(),
    ensures
        forall|k: int| 0 <= k < n ==> styled.line_width(#[trigger] lines[k]) <= styled.widest(lines, n),
        exists|k: int| 0 <= k < n && styled.line_width(#[trigger] lines[k]) == styled.widest(lines, n),
    decreases n,
{
    if n == 1 {
        assert(styled.line_width(lines[0]) == styled.widest(lines, n));
    } else {
        let m = (n - 1) as nat;
        lemma_block_width(styled, lines, m);
        let k = choose|k: int|
            0 <= k < m && styled.line_width(#[trigger] lines[k]) == styled.widest(lines, m);
        assert(styled.line_width(lines[k]) == styled.widest(lines, m));
        assert(styled.line_width(lines[n - 1]) <= styled.widest(lines, n));
    }
}

/// What of a glyph counts as ink: how high it reaches and how far it falls in its line.
pub open spec fn has_ink(styled: Styled, c: char) -> bool {
    styled.glyph(c) matches Some(g) && g.height > 0
}

/// The ink of some characters reaches from the highest to the lowest of theirs.
pub proof fn lemma_ink_reaches(styled: Styled, characters: Seq<char>, n: nat)
    requires
        n <= characters.len(),
    ensures
        match styled.ink_of(characters, n) {
            None => forall|k: int| 0 <= k < n ==> !has_ink(styled, #[trigger] characters[k]),
            Some((top, bottom)) => {
                &&& forall|k: int|
                    0 <= k < n && has_ink(styled, #[trigger] characters[k]) ==> top <= styled.glyph(
                        characters[k],
                    )->0.yoffset && styled.glyph(characters[k])->0.yoffset + styled.glyph(
                        characters[k],
                    )->0.height <= bottom
                &&& exists|k: int|
                    0 <= k < n && has_ink(styled, #[trigger] characters[k]) && top == styled.glyph(
                        characters[k],
                    )->0.yoffset
                &&& exists|k: int|
                    0 <= k < n && has_ink(styled, #[trigger] characters[k]) && bottom
                        == styled.glyph(characters[k])->0.yoffset + styled.glyph(
                        characters[k],
                    )->0.height
            },
        },
    decreases n,
{
    if n > 0 {
        let m = (n - 1) as nat;
        lemma_ink_reaches(styled, characters, m);
        let c = characters[m as int];
        if has_ink(styled, c) {
            assert(characters[m as int] == c);
        }
        if styled.ink_of(characters, m) is Some {
            let (t, b) = styled.ink_of(characters, m)->0;
            let i = choose|k: int|
                0 <= k < m && has_ink(styled, #[trigger] characters[k]) && t == styled.glyph(
                    characters[k],
                )->0.yoffset;
            let j = choose|k: int|
                0 <= k < m && has_ink(styled, #[trigger] characters[k]) && b == styled.glyph(
                    characters[k],
                )->0.yoffset + styled.glyph(characters[k])->0.height;
            assert(has_ink(styled, characters[i]) && has_ink(styled, characters[j]));
        }
    }
}

} // verus!
