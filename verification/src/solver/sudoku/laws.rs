//! What holds of the solver as a whole.
use super::grid::{
    board_from, cell_of, inside, lemma_board_from, lemma_line_geometry, puzzle_text, Board, Cell,
    Line,
};
use super::validate::lemma_verdict_solved;
use vstd::prelude::*;
use vstd::set_lib::*;

verus! {

/// The character at the `k`-th place of line `i` of the given kind.
pub open spec fn char_on(text: Seq<Seq<char>>, kind: Line, i: int, k: int) -> char {
    text[cell_of(kind, i, k).0][cell_of(kind, i, k).1]
}

/// The text shows a solved puzzle: nine lines of nine digits from 1 to 9,
/// with no digit twice in a row, a column or a block.
pub open spec fn solved_text(text: Seq<Seq<char>>) -> bool {
    &&& puzzle_text(text)
    &&& forall|r: int, c: int|
        inside(r, c) ==> 49 <= (#[trigger] text[r][c]) as u32 && text[r][c] as u32 <= 57
    &&& forall|kind: Line, i: int, j: int, k: int|
        0 <= i < 9 && 0 <= j < k < 9 ==> #[trigger] char_on(text, kind, i, j) != #[trigger] char_on(
            text,
            kind,
            i,
            k,
        )
}

/// A board built from the text of a solved puzzle is found solved as it
/// stands, before any round of propagation.
pub proof fn lemma_solved_text(text: Seq<Seq<char>>)
    requires
        solved_text(text),
    ensures
        board_from(text).wf(),
        board_from(text).solved(),
        board_from(text).verdict() == Some(true),
{
    let b = board_from(text);
    lemma_board_from(text);
    lemma_verdict_solved(b);
    assert forall|kind: Line, i: int| 0 <= i < 9 implies #[trigger] b.line_complete(kind, i) by {
        lemma_line_geometry(kind, i);
        assert forall|k: int| 0 <= k < 9 implies #[trigger] b.on(kind, i, k) is Fixed by {
            let (r, c) = cell_of(kind, i, k);
            assert(inside(r, c));
            assert(49 <= text[r][c] as u32);
        }
        assert forall|j: int, k: int| 0 <= j < k < 9 implies #[trigger] b.on(kind, i, j)
            != #[trigger] b.on(kind, i, k) by {
            let (r, c) = cell_of(kind, i, j);
            let (s, t) = cell_of(kind, i, k);
            assert(inside(r, c) && inside(s, t));
            assert(49 <= text[r][c] as u32 && 49 <= text[s][t] as u32);
            assert(char_on(text, kind, i, j) != char_on(text, kind, i, k));
        }
    }
}

/// Across a round of propagation no cell gains a candidate: a settled cell
/// stays as it is, and an open cell keeps a subset of its candidates, so no
/// more of them than before, or settles on one of them.
pub proof fn lemma_round_monotone(b: Board, r: int, c: int)
    requires
        b.wf(),
        inside(r, c),
    ensures
        match (b.at(r, c), b.round().at(r, c)) {
            (Cell::Fixed(d), later) => later == Cell::Fixed(d),
            (Cell::Candidates(s), Cell::Candidates(t)) => t.subset_of(s) && t.len() <= s.len(),
            (Cell::Candidates(s), Cell::Fixed(d)) => s.contains(d),
        },
        b.round().weight() <= b.weight(),
{
    b.lemma_round();
    b.lemma_narrows_weight(b.round());
    assert(b.at(r, c).narrows_to(b.round().at(r, c)));
    assert(b.at(r, c).valid());
    match (b.at(r, c), b.round().at(r, c)) {
        (Cell::Candidates(s), Cell::Candidates(t)) => {
            lemma_len_subset(t, s);
        },
        _ => {},
    }
}

/// A round of propagation that changes no cell leaves every cell as it was
/// and the weight of the board too; a round that changes a cell lowers the
/// weight.
pub proof fn lemma_round_progress(b: Board)
    requires
        b.wf(),
    ensures
        b.same_cells(b.round()) ==> b.round().cells == b.cells,
        !b.same_cells(b.round()) ==> b.round().weight() < b.weight(),
{
    b.lemma_round();
    b.lemma_narrows_weight(b.round());
    if b.same_cells(b.round()) {
        b.lemma_same_cells(b.round());
    }
}

} // verus!
