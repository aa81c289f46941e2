//! What the commands of a path's data draw.

use crate::exact::{is_at, lemma_difference_at, lemma_product_at, lemma_small_whole};
use crate::num::{num, product_of, sum_of, Num};
use crate::path::{obeyed, reflected, Pen};
use crate::waves::TWO;
use vstd::prelude::*;

verus! {

/// A point so far from another one.
pub open spec fn from_there(at: [Num; 2], p: [Num; 2]) -> [Num; 2] {
    [sum_of(at[0], p[0]), sum_of(at[1], p[1])]
}

/// The commands whose points may be counted from where the pen is: moves, lines, curves and
/// what follows curves smoothly, as capital letters.
pub open spec fn takes_points(cmd: u8) -> bool {
    cmd == 0x4D || cmd == 0x4C || cmd == 0x43 || cmd == 0x51 || cmd == 0x53 || cmd == 0x54
}

/// The control point that a smooth command gets without naming it.
pub open spec fn given_control(cmd: u8) -> int {
    if cmd == 0x53 || cmd == 0x54 {
        1
    } else {
        0
    }
}

/// A command in small letters draws what the same one in capitals does, with every point that it
/// names counted from where the pen was, and reads the same numbers.
#[verifier::rlimit(40)]
pub proof fn lemma_small_letters(src: Seq<u8>, p: Pen, cmd: u8, c: int)
    requires
        takes_points(cmd),
    ensures
        ({
            let small = obeyed(src, p, (cmd + 0x20) as u8);
            let capital = obeyed(src, p, cmd);
            &&& small is Ok == capital is Ok
            &&& small is Ok ==> {
                let (a, b) = (small->Ok_0, capital->Ok_0);
                let (one, other) = (a.out.last(), b.out.last());
                &&& a.pos == b.pos
                &&& a.out.len() == p.out.len() + 1 && b.out.len() == p.out.len() + 1
                &&& a.out.drop_last() == p.out && b.out.drop_last() == p.out
                &&& one.corners().len() == other.corners().len()
                &&& given_control(cmd) <= c < one.corners().len() ==> one.corners()[c]
                    == from_there(p.at, other.corners()[c])
            }
        }),
{
    reveal(obeyed);
    let small = obeyed(src, p, (cmd + 0x20) as u8);
    let capital = obeyed(src, p, cmd);
    if small is Ok && capital is Ok {
        assert(small->Ok_0.out.drop_last() =~= p.out);
        assert(capital->Ok_0.out.drop_last() =~= p.out);
    }
}

/// The pen stands where the last point of what it drew is; a move starts a new line there, and
/// nothing but a move does. To close a line is to go back to where it started.
pub proof fn lemma_pen_follows(src: Seq<u8>, p: Pen, cmd: u8)
    requires
        takes_points(cmd) || cmd == 0x48 || cmd == 0x56 || cmd == 0x5A,
        obeyed(src, p, cmd) is Ok,
    ensures
        ({
            let after = obeyed(src, p, cmd)->Ok_0;
            let drawn = after.out.last();
            &&& cmd == 0x5A ==> drawn is Close && after.at == p.start
            &&& cmd != 0x5A ==> after.at == drawn.corners().last()
            &&& cmd == 0x4D ==> drawn is MoveTo && after.start == after.at
            &&& cmd != 0x4D ==> after.start == p.start
            &&& cmd == 0x48 ==> drawn is LineTo && after.at[1] == p.at[1]
            &&& cmd == 0x56 ==> drawn is LineTo && after.at[0] == p.at[0]
            &&& cmd == 0x4C ==> drawn is LineTo
            &&& cmd == 0x43 || cmd == 0x53 ==> drawn is CubicTo
            &&& cmd == 0x51 || cmd == 0x54 ==> drawn is QuadTo
        }),
{
    reveal(obeyed);
}

/// Where one curve follows another of its kind smoothly, the pen stands half way between the last
/// control point of the one and the first of the other.
#[verifier::rlimit(40)]
pub proof fn lemma_smooth(src: Seq<u8>, p: Pen, cmd: u8, x: int, y: int, i: int, j: int)
    requires
        cmd == 0x53 || cmd == 0x73 || cmd == 0x54 || cmd == 0x74,
        obeyed(src, p, cmd) is Ok,
        is_at(p.at[0], x, 1054) && is_at(p.at[1], y, 1054),
        -0x1000_0000 < x < 0x1000_0000 && -0x1000_0000 < y < 0x1000_0000,
        (if cmd == 0x53 || cmd == 0x73 {
            p.last_cubic
        } else {
            p.last_quad
        }) matches Some(last) && is_at(last[0], i, 1054) && is_at(last[1], j, 1054),
        -0x1000_0000 < i < 0x1000_0000 && -0x1000_0000 < j < 0x1000_0000,
    ensures
        ({
            let next = obeyed(src, p, cmd)->Ok_0.out.last().corners()[0];
            is_at(next[0], 2 * x - i, 1054) && is_at(next[1], 2 * y - j, 1054)
        }),
{
    reveal(obeyed);
    lemma_small_whole();
    let last = if cmd == 0x53 || cmd == 0x73 {
        p.last_cubic
    } else {
        p.last_quad
    };
    let c = last->0;
    lemma_product_at(num(TWO), p.at[0], 2, x, 1074, 1054);
    lemma_product_at(num(TWO), p.at[1], 2, y, 1074, 1054);
    lemma_difference_at(product_of(num(TWO), p.at[0]), c[0], 2 * x, i, 1054);
    lemma_difference_at(product_of(num(TWO), p.at[1]), c[1], 2 * y, j, 1054);
    assert(obeyed(src, p, cmd)->Ok_0.out.last().corners()[0] == reflected(p.at, last));
}

/// A curve that follows no curve of its kind starts out towards the pen itself; the last control
/// point of a curve is kept for the next one, and for no other kind.
pub proof fn lemma_control_kept(src: Seq<u8>, p: Pen, cmd: u8)
    requires
        takes_points(cmd) || cmd == 0x48 || cmd == 0x56 || cmd == 0x5A,
        obeyed(src, p, cmd) is Ok,
    ensures
        ({
            let after = obeyed(src, p, cmd)->Ok_0;
            let drawn = after.out.last().corners();
            &&& cmd == 0x43 || cmd == 0x53 ==> after.last_cubic == Some(drawn[1])
                && after.last_quad is None
            &&& cmd == 0x51 || cmd == 0x54 ==> after.last_quad == Some(drawn[0])
                && after.last_cubic is None
            &&& cmd == 0x4D || cmd == 0x4C || cmd == 0x48 || cmd == 0x56 || cmd == 0x5A
                ==> after.last_cubic is None && after.last_quad is None
            &&& cmd == 0x53 && p.last_cubic is None ==> drawn[0] == p.at
            &&& cmd == 0x54 && p.last_quad is None ==> drawn[0] == p.at
        }),
{
    reveal(obeyed);
}

} // verus!
