//! Text laid into a row of cells.

use crate::model::Justify;
use crate::text::chars_of;
use vstd::prelude::*;

verus! {

/// The characters of `text` in `count` cells: from the left, or ending in the last cell.
pub open spec fn celled(text: Seq<char>, count: nat, justify: Justify) -> Seq<Option<char>> {
    let shift = if justify == Justify::Right {
        text.len() - count
    } else {
        0
    };
    Seq::new(
        count,
        |i: int|
            if 0 <= i + shift < text.len() {
                Some(text[i + shift])
            } else {
                None
            },
    )
}

/// The characters of `text` laid into `count` cells, `None` where a cell has nothing to show.
/// Text longer than the row is cut at the far side of `justify`.
pub fn cells(text: &str, count: usize, justify: Justify) -> (r: Vec<Option<char>>)
    ensures
        r@ == celled(text@, count as nat, justify),
{
    let characters = chars_of(text);
    let len: usize = characters.len();
    let mut out: Vec<Option<char>> = Vec::new();
    let mut i: usize = 0;
    while i < count
        invariant
            i <= count,
            len == characters.len(),
            characters@ == text@,
            out@ == celled(text@, count as nat, justify).take(i as int),
        decreases count - i,
    {
        let cell: Option<char> = match justify {
            Justify::Left => {
                if i < len {
                    Some(characters[i])
                } else {
                    None
                }
            },
            Justify::Right => {
                if len >= count {
                    Some(characters[len - count + i])
                } else if i >= count - len {
                    Some(characters[i - (count - len)])
                } else {
                    None
                }
            },
        };
        out.push(cell);
        i = i + 1;
        assert(out@ =~= celled(text@, count as nat, justify).take(i as int));
    }
    assert(out@ =~= celled(text@, count as nat, justify));
    out
}

/// A row has as many cells as were asked for.
pub proof fn lemma_celled_length(text: Seq<char>, count: nat, justify: Justify)
    ensures
        celled(text, count, justify).len() == count,
{
}

} // verus!
