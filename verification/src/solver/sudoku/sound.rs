//! Propagation is sound: a round strikes no digit that a solution of the
//! puzzle needs, as long as the records of cleared lines are true.
use super::grid::{
    block_of, board_from, cell_of, digits, inside, lemma_board_from, lemma_cell_block,
    lemma_cell_settle, lemma_line_geometry, lemma_nine_digits, lemma_single, lies_on,
    nothing_done, place_on, puzzle_text, square, Board, Cell, Line,
};
use super::lines::line_except;
use super::round::peers;
use super::subsets::{ascending, others};
use super::validate::{lemma_line_permutation, lemma_verdict_solved};
use vstd::prelude::*;
use vstd::set_lib::*;

verus! {

/// The digit at place `k` of line `i` of a filled grid.
pub open spec fn digit_on(g: Seq<Seq<usize>>, kind: Line, i: int, k: int) -> usize {
    g[cell_of(kind, i, k).0][cell_of(kind, i, k).1]
}

/// The grid is a solved Sudoku: nine rows of nine digits from 1 to 9, no
/// digit twice in a row, a column or a block.
pub open spec fn answer(g: Seq<Seq<usize>>) -> bool {
    &&& square(g)
    &&& forall|r: int, c: int| inside(r, c) ==> 1 <= (#[trigger] g[r][c]) <= 9
    &&& forall|kind: Line, i: int, j: int, k: int|
        0 <= i < 9 && 0 <= j < k < 9 ==> #[trigger] digit_on(g, kind, i, j) != #[trigger] digit_on(
            g,
            kind,
            i,
            k,
        )
}

/// The board with every cell settled as the grid says.
pub open spec fn filled(g: Seq<Seq<usize>>) -> Board {
    Board {
        cells: Seq::new(9, |r: int| Seq::new(9, |c: int| Cell::Fixed(g[r][c]))),
        rows: nothing_done(),
        cols: nothing_done(),
        blocks: nothing_done(),
    }
}

/// Two different cells of one line hold different digits in a solved grid.
pub proof fn lemma_answer_apart(g: Seq<Seq<usize>>, kind: Line, i: int, r: int, c: int, s: int, t: int)
    requires
        answer(g),
        0 <= i < 9,
        inside(r, c),
        inside(s, t),
        lies_on(kind, i, r, c),
        lies_on(kind, i, s, t),
        !(r == s && c == t),
    ensures
        g[r][c] != g[s][t],
{
    lemma_line_geometry(kind, i);
    let j = place_on(kind, r, c);
    let k = place_on(kind, s, t);
    assert(cell_of(kind, i, j) == (r, c));
    assert(cell_of(kind, i, k) == (s, t));
    assert(j != k);
    if j < k {
        assert(digit_on(g, kind, i, j) != digit_on(g, kind, i, k));
    } else {
        assert(digit_on(g, kind, i, k) != digit_on(g, kind, i, j));
    }
}

/// Every digit stands somewhere on every line of a solved grid.
pub proof fn lemma_answer_holds(g: Seq<Seq<usize>>, kind: Line, i: int, d: usize) -> (k: int)
    requires
        answer(g),
        0 <= i < 9,
        1 <= d <= 9,
    ensures
        0 <= k < 9,
        digit_on(g, kind, i, k) == d,
{
    let b = filled(g);
    assert(b.wf()) by {
        assert forall|r: int, c: int| inside(r, c) implies (#[trigger] b.at(r, c)).valid() by {
            assert(1 <= g[r][c] <= 9);
        }
    }
    lemma_line_geometry(kind, i);
    assert(b.line_complete(kind, i)) by {
        assert forall|j: int, k: int| 0 <= j < k < 9 implies #[trigger] b.on(kind, i, j)
            != #[trigger] b.on(kind, i, k) by {
            assert(digit_on(g, kind, i, j) != digit_on(g, kind, i, k));
            assert(inside(cell_of(kind, i, j).0, cell_of(kind, i, j).1));
            assert(inside(cell_of(kind, i, k).0, cell_of(kind, i, k).1));
        }
        assert forall|k: int| 0 <= k < 9 implies #[trigger] b.on(kind, i, k) is Fixed by {
            assert(inside(cell_of(kind, i, k).0, cell_of(kind, i, k).1));
        }
    }
    lemma_line_permutation(b, kind, i, d);
    let k = choose|k: int| 0 <= k < 9 && #[trigger] b.on(kind, i, k) == Cell::Fixed(d);
    assert(inside(cell_of(kind, i, k).0, cell_of(kind, i, k).1));
    k
}

impl Cell {
    /// The cell is `before` with some candidates struck: a settled cell is
    /// the same, an open cell is open with a subset of the candidates.
    pub open spec fn struck_from(self, before: Cell) -> bool {
        match before {
            Cell::Fixed(d) => self == Cell::Fixed(d),
            Cell::Candidates(s) => self matches Cell::Candidates(t) && t.subset_of(s),
        }
    }
}

impl Board {
    /// Every cell is the cell of `before` with some candidates struck, and
    /// the records are those of `before`.
    pub open spec fn kept_from(self, before: Board) -> bool {
        &&& forall|r: int, c: int| inside(r, c) ==> (#[trigger] self.at(r, c)).struck_from(before.at(r, c))
        &&& self.rows == before.rows
        &&& self.cols == before.cols
        &&& self.blocks == before.blocks
    }

    /// The grid is still possible on the board: each settled cell holds the
    /// grid's digit, each open cell offers it.
    pub open spec fn admits(self, g: Seq<Seq<usize>>) -> bool {
        forall|r: int, c: int|
            inside(r, c) ==> match #[trigger] self.at(r, c) {
                Cell::Fixed(d) => g[r][c] == d,
                Cell::Candidates(s) => s.contains(g[r][c]),
            }
    }

    /// No cell of line `i` but the one at place `k` offers `d` or is settled as `d`.
    pub open spec fn only_at(self, kind: Line, i: int, d: usize, k: int) -> bool {
        forall|j: int|
            0 <= j < 9 && j != k ==> !(#[trigger] self.on(kind, i, j)).offers(d) && self.on(kind, i, j)
                != Cell::Fixed(d)
    }

    /// The records of cleared lines are true: where a line is recorded as
    /// cleared of a digit, at most one of its cells still offers the digit
    /// or is settled as it.
    pub open spec fn coherent(self) -> bool {
        forall|kind: Line, i: int, d: usize|
            0 <= i < 9 && 1 <= d <= 9 && #[trigger] self.done(kind, i, d) ==> exists|k: int|
                0 <= k < 9 && self.only_at(kind, i, d, k)
    }

    /// Striking digits that the grid does not need from a region keeps the
    /// grid possible.
    pub proof fn lemma_erase_admits(
        self,
        g: Seq<Seq<usize>>,
        ds: Set<usize>,
        region: spec_fn(int, int) -> bool,
    )
        requires
            self.shaped(),
            self.admits(g),
            forall|r: int, c: int|
                inside(r, c) && #[trigger] region(r, c) && self.at(r, c) is Candidates ==> !ds.contains(
                    g[r][c],
                ),
        ensures
            self.erase(ds, region).admits(g),
    {
        let e = self.erase(ds, region);
        assert forall|r: int, c: int| inside(r, c) implies match #[trigger] e.at(r, c) {
            Cell::Fixed(d) => g[r][c] == d,
            Cell::Candidates(s) => s.contains(g[r][c]),
        } by {
            let x = self.at(r, c);
            if region(r, c) {
                assert(e.at(r, c) == x.without(ds));
            } else {
                assert(e.at(r, c) == x);
            }
        }
    }

    /// Striking keeps the records true, and keeps every cell of the kind
    /// it was: settled or open.
    pub proof fn lemma_erase_coherent(self, ds: Set<usize>, region: spec_fn(int, int) -> bool)
        requires
            self.shaped(),
            self.coherent(),
        ensures
            self.erase(ds, region).coherent(),
            self.erase(ds, region).kept_from(self),
    {
        let e = self.erase(ds, region);
        assert forall|r: int, c: int| inside(r, c) implies (#[trigger] e.at(r, c)).struck_from(
            self.at(r, c),
        ) by {
            let x = self.at(r, c);
            if region(r, c) {
                assert(e.at(r, c) == x.without(ds));
            } else {
                assert(e.at(r, c) == x);
            }
        }
        assert forall|kind: Line, i: int, d: usize|
            0 <= i < 9 && 1 <= d <= 9 && #[trigger] e.done(kind, i, d) implies exists|k: int|
            0 <= k < 9 && e.only_at(kind, i, d, k) by {
            assert(self.done(kind, i, d));
            let k = choose|k: int| 0 <= k < 9 && self.only_at(kind, i, d, k);
            lemma_line_geometry(kind, i);
            assert forall|j: int| 0 <= j < 9 && j != k implies !(#[trigger] e.on(kind, i, j)).offers(d)
                && e.on(kind, i, j) != Cell::Fixed(d) by {
                let (r, c) = cell_of(kind, i, j);
                assert(inside(r, c));
                assert(!self.on(kind, i, j).offers(d) && self.on(kind, i, j) != Cell::Fixed(d));
                assert(e.at(r, c).struck_from(self.at(r, c)));
            }
            assert(e.only_at(kind, i, d, k));
        }
    }

    /// Every cell is the cell of `before` with some candidates struck, and
    /// no record of `before` is lost.
    pub open spec fn grown_from(self, before: Board) -> bool {
        &&& forall|r: int, c: int| inside(r, c) ==> (#[trigger] self.at(r, c)).struck_from(before.at(r, c))
        &&& forall|kind: Line, i: int, d: usize|
            0 <= i < 9 && 1 <= d <= 9 && #[trigger] before.done(kind, i, d) ==> self.done(kind, i, d)
    }

    /// A board grows from itself, and growing goes on through a board in between.
    pub proof fn lemma_grown(self, mid: Board, later: Board)
        requires
            mid.grown_from(self),
            later.grown_from(mid),
        ensures
            self.grown_from(self),
            later.grown_from(self),
    {
        assert forall|r: int, c: int| inside(r, c) implies (#[trigger] self.at(r, c)).struck_from(
            self.at(r, c),
        ) by {}
        assert forall|r: int, c: int| inside(r, c) implies (#[trigger] later.at(r, c)).struck_from(
            self.at(r, c),
        ) by {
            assert(mid.at(r, c).struck_from(self.at(r, c)));
            assert(later.at(r, c).struck_from(mid.at(r, c)));
        }
        assert forall|kind: Line, i: int, d: usize|
            0 <= i < 9 && 1 <= d <= 9 && #[trigger] self.done(kind, i, d) implies later.done(kind, i, d) by {
            assert(mid.done(kind, i, d));
        }
    }

    /// The blocks before `n` that hold `d` settled are recorded as cleared of `d`.
    pub open spec fn noted(self, d: usize, n: int) -> bool {
        forall|blk: int|
            0 <= blk < n && #[trigger] self.block_settled(blk, d) ==> self.done(Line::Block, blk, d)
    }

    /// What is noted stays noted as the board grows.
    pub proof fn lemma_noted_grows(self, later: Board, d: usize, n: int)
        requires
            later.grown_from(self),
            self.noted(d, n),
            0 <= n <= 9,
            1 <= d <= 9,
        ensures
            later.noted(d, n),
    {
        assert forall|blk: int| 0 <= blk < n && #[trigger] later.block_settled(blk, d) implies later.done(
            Line::Block,
            blk,
            d,
        ) by {
            let k = choose|k: int| 0 <= k < 9 && #[trigger] later.on(Line::Block, blk, k) == Cell::Fixed(d);
            lemma_line_geometry(Line::Block, blk);
            let (r, c) = cell_of(Line::Block, blk, k);
            assert(inside(r, c));
            assert(later.at(r, c).struck_from(self.at(r, c)));
            assert(self.on(Line::Block, blk, k) == Cell::Fixed(d));
            assert(self.block_settled(blk, d));
            assert(self.done(Line::Block, blk, d));
        }
    }

    /// Line uniqueness is sound: it keeps a solution possible and the
    /// records true, and where the line holds the digit settled it leaves
    /// the line recorded as cleared.
    pub proof fn lemma_clear_line_sound(self, g: Seq<Seq<usize>>, kind: Line, i: int, d: usize)
        requires
            self.wf(),
            answer(g),
            self.admits(g),
            self.coherent(),
            0 <= i < 9,
            1 <= d <= 9,
        ensures
            self.clear_line(kind, i, d).admits(g),
            self.clear_line(kind, i, d).coherent(),
            self.clear_line(kind, i, d).grown_from(self),
            (exists|k: int| 0 <= k < 9 && #[trigger] self.on(kind, i, k) == Cell::Fixed(d))
                ==> self.clear_line(kind, i, d).done(kind, i, d),
    {
        let out = self.clear_line(kind, i, d);
        lemma_line_geometry(kind, i);
        self.lemma_grown(self, self);
        if exists|k: int| 0 <= k < 9 && #[trigger] self.on(kind, i, k) == Cell::Fixed(d) {
            let p = choose|k: int| 0 <= k < 9 && #[trigger] self.on(kind, i, k) == Cell::Fixed(d);
            if !self.done(kind, i, d) {
                assert(self.pinned_at(kind, i, d, p)) by {
                    assert forall|j: int| 0 <= j < 9 && j != p implies !(#[trigger] self.on(kind, i, j)).pins(
                        d,
                    ) by {
                        if self.on(kind, i, j).pins(d) {
                            let (r, c) = cell_of(kind, i, p);
                            let (s, t) = cell_of(kind, i, j);
                            assert(inside(r, c) && inside(s, t));
                            assert(place_on(kind, r, c) == p && place_on(kind, s, t) == j);
                            assert(g[r][c] == d);
                            assert(g[s][t] == d) by {
                                assert(self.at(s, t).pins(d));
                                match self.at(s, t) {
                                    Cell::Fixed(_) => {},
                                    Cell::Candidates(cs) => {
                                        assert(cs.contains(g[s][t]));
                                    },
                                }
                            }
                            lemma_answer_apart(g, kind, i, r, c, s, t);
                        }
                    }
                }
            }
        }
        if self.line_ready(kind, i, d) {
            let k = choose|k: int| self.pinned_at(kind, i, d, k);
            let ds = set![d];
            let region = line_except(kind, i, k, 9);
            let m = self.mark(kind, i, d);
            self.lemma_mark(kind, i, d);
            let (pr, pc) = cell_of(kind, i, k);
            assert(inside(pr, pc));
            assert(g[pr][pc] == d) by {
                assert(self.at(pr, pc).pins(d));
                match self.at(pr, pc) {
                    Cell::Fixed(_) => {},
                    Cell::Candidates(cs) => {
                        assert(cs.contains(g[pr][pc]));
                    },
                }
            }
            assert(m.admits(g)) by {
                assert forall|r: int, c: int| inside(r, c) implies match #[trigger] m.at(r, c) {
                    Cell::Fixed(e) => g[r][c] == e,
                    Cell::Candidates(cs) => cs.contains(g[r][c]),
                } by {
                    assert(m.at(r, c) == self.at(r, c));
                }
            }
            assert forall|r: int, c: int|
                inside(r, c) && #[trigger] region(r, c) && m.at(r, c) is Candidates implies !ds.contains(
                g[r][c],
            ) by {
                assert(place_on(kind, pr, pc) == k);
                lemma_answer_apart(g, kind, i, pr, pc, r, c);
            }
            m.lemma_erase_admits(g, ds, region);
            let e = m.erase(ds, region);
            assert(out == e);
            assert(out.grown_from(self)) by {
                assert forall|r: int, c: int| inside(r, c) implies (#[trigger] out.at(r, c)).struck_from(
                    self.at(r, c),
                ) by {
                    assert(m.at(r, c) == self.at(r, c));
                    if region(r, c) {
                        assert(out.at(r, c) == m.at(r, c).without(ds));
                    } else {
                        assert(out.at(r, c) == m.at(r, c));
                    }
                }
                assert forall|n: Line, j: int, x: usize|
                    0 <= j < 9 && 1 <= x <= 9 && #[trigger] self.done(n, j, x) implies out.done(n, j, x) by {
                    assert(m.done(n, j, x));
                }
            }
            assert forall|n: Line, j: int, x: usize|
                0 <= j < 9 && 1 <= x <= 9 && #[trigger] out.done(n, j, x) implies exists|w: int|
                0 <= w < 9 && out.only_at(n, j, x, w) by {
                if n == kind && j == i && x == d {
                    assert forall|q: int| 0 <= q < 9 && q != k implies !(#[trigger] out.on(kind, i, q)).offers(
                        d,
                    ) && out.on(kind, i, q) != Cell::Fixed(d) by {
                        let (r, c) = cell_of(kind, i, q);
                        assert(inside(r, c));
                        assert(place_on(kind, r, c) == q);
                        assert(region(r, c));
                        assert(out.at(r, c) == m.at(r, c).without(ds));
                        assert(m.at(r, c) == self.at(r, c));
                        assert(!self.on(kind, i, q).pins(d));
                    }
                    assert(out.only_at(kind, i, d, k));
                } else {
                    assert(m.done(n, j, x));
                    assert(self.done(n, j, x));
                    let w = choose|w: int| 0 <= w < 9 && self.only_at(n, j, x, w);
                    lemma_line_geometry(n, j);
                    assert forall|q: int| 0 <= q < 9 && q != w implies !(#[trigger] out.on(n, j, q)).offers(
                        x,
                    ) && out.on(n, j, q) != Cell::Fixed(x) by {
                        let (r, c) = cell_of(n, j, q);
                        assert(inside(r, c));
                        assert(!self.on(n, j, q).offers(x) && self.on(n, j, q) != Cell::Fixed(x));
                        assert(out.at(r, c).struck_from(self.at(r, c)));
                    }
                    assert(out.only_at(n, j, x, w));
                }
            }
        }
    }

    /// The same for the first `n` lines of a kind; where the kind is the
    /// block, the blocks treated are noted.
    pub proof fn lemma_clear_lines_sound(self, g: Seq<Seq<usize>>, kind: Line, d: usize, n: int)
        requires
            self.wf(),
            answer(g),
            self.admits(g),
            self.coherent(),
            0 <= n <= 9,
            1 <= d <= 9,
        ensures
            self.clear_lines(kind, d, n).admits(g),
            self.clear_lines(kind, d, n).coherent(),
            self.clear_lines(kind, d, n).grown_from(self),
            kind is Block ==> self.clear_lines(kind, d, n).noted(d, n),
        decreases n,
    {
        self.lemma_grown(self, self);
        if n > 0 {
            let p = self.clear_lines(kind, d, n - 1);
            let out = p.clear_line(kind, n - 1, d);
            self.lemma_clear_lines_sound(g, kind, d, n - 1);
            self.lemma_clear_lines(kind, d, n - 1);
            p.lemma_clear_line_sound(g, kind, n - 1, d);
            self.lemma_grown(p, out);
            if kind is Block {
                p.lemma_noted_grows(out, d, n - 1);
                assert forall|blk: int| 0 <= blk < n && #[trigger] out.block_settled(blk, d) implies out.done(
                    Line::Block,
                    blk,
                    d,
                ) by {
                    if blk == n - 1 {
                        let k = choose|k: int|
                            0 <= k < 9 && #[trigger] out.on(Line::Block, blk, k) == Cell::Fixed(d);
                        lemma_line_geometry(Line::Block, blk);
                        let (r, c) = cell_of(Line::Block, blk, k);
                        assert(inside(r, c));
                        assert(out.at(r, c).struck_from(p.at(r, c)));
                        assert(p.on(Line::Block, blk, k) == Cell::Fixed(d));
                    }
                }
            }
        }
    }

    /// The same for all lines: rows, columns, blocks. Afterwards every
    /// block that holds the digit settled is recorded as cleared of it.
    pub proof fn lemma_clear_all_lines_sound(self, g: Seq<Seq<usize>>, d: usize)
        requires
            self.wf(),
            answer(g),
            self.admits(g),
            self.coherent(),
            1 <= d <= 9,
        ensures
            self.clear_all_lines(d).admits(g),
            self.clear_all_lines(d).coherent(),
            self.clear_all_lines(d).grown_from(self),
            self.clear_all_lines(d).noted(d, 9),
    {
        let a = self.clear_lines(Line::Row, d, 9);
        let b = a.clear_lines(Line::Column, d, 9);
        let c = b.clear_lines(Line::Block, d, 9);
        self.lemma_clear_lines_sound(g, Line::Row, d, 9);
        self.lemma_clear_lines(Line::Row, d, 9);
        a.lemma_clear_lines_sound(g, Line::Column, d, 9);
        a.lemma_clear_lines(Line::Column, d, 9);
        b.lemma_clear_lines_sound(g, Line::Block, d, 9);
        self.lemma_grown(a, b);
        self.lemma_grown(b, c);
    }

    /// In a block that holds `d` settled and is recorded as cleared of it,
    /// no cell offers `d`.
    pub proof fn lemma_settled_block_quiet(self, blk: int, d: usize, r: int, c: int)
        requires
            self.shaped(),
            self.coherent(),
            0 <= blk < 9,
            1 <= d <= 9,
            self.block_settled(blk, d),
            self.done(Line::Block, blk, d),
            inside(r, c),
            block_of(r, c) == blk,
        ensures
            !self.at(r, c).offers(d),
    {
        lemma_line_geometry(Line::Block, blk);
        let p = choose|k: int| 0 <= k < 9 && #[trigger] self.on(Line::Block, blk, k) == Cell::Fixed(d);
        let w = choose|w: int| 0 <= w < 9 && self.only_at(Line::Block, blk, d, w);
        if p != w {
            assert(self.on(Line::Block, blk, p) != Cell::Fixed(d));
        }
        let q = place_on(Line::Block, r, c);
        assert(cell_of(Line::Block, blk, q) == (r, c));
        if q != w {
            assert(!self.on(Line::Block, blk, q).offers(d));
        }
    }

    /// The pointing rule is sound on a block, where the blocks that hold
    /// the digit settled are recorded as cleared of it.
    pub proof fn lemma_point_block_sound(self, g: Seq<Seq<usize>>, blk: int, d: usize)
        requires
            self.wf(),
            answer(g),
            self.admits(g),
            self.coherent(),
            self.noted(d, 9),
            0 <= blk < 9,
            1 <= d <= 9,
        ensures
            self.point_block(blk, d).admits(g),
            self.point_block(blk, d).coherent(),
            self.point_block(blk, d).grown_from(self),
            self.point_block(blk, d).noted(d, 9),
    {
        let ds = set![d];
        let region = self.pointed(blk, d, 9, 9);
        let k = lemma_answer_holds(g, Line::Block, blk, d);
        lemma_line_geometry(Line::Block, blk);
        let (pr, pc) = cell_of(Line::Block, blk, k);
        assert(inside(pr, pc) && block_of(pr, pc) == blk && g[pr][pc] == d);
        assert forall|r: int, c: int|
            inside(r, c) && #[trigger] region(r, c) && self.at(r, c) is Candidates implies !ds.contains(
            g[r][c],
        ) by {
            if g[r][c] == d {
                match self.at(pr, pc) {
                    Cell::Fixed(e) => {
                        assert(self.on(Line::Block, blk, k) == Cell::Fixed(d));
                        assert(self.block_settled(blk, d));
                        if self.row_confined(blk, d, r) {
                            let y = choose|y: int|
                                0 <= y < 9 && block_of(r, y) == blk && (#[trigger] self.at(r, y)).offers(d);
                            self.lemma_settled_block_quiet(blk, d, r, y);
                        }
                        if self.col_confined(blk, d, c) {
                            let x = choose|x: int|
                                0 <= x < 9 && block_of(x, c) == blk && (#[trigger] self.at(x, c)).offers(d);
                            self.lemma_settled_block_quiet(blk, d, x, c);
                        }
                    },
                    Cell::Candidates(cs) => {
                        assert(self.at(pr, pc).offers(d));
                        assert(self.row_offers(blk, d, pr));
                        assert(self.col_offers(blk, d, pc));
                        if self.row_confined(blk, d, r) {
                            assert(pr == r);
                            lemma_answer_apart(g, Line::Row, r, r, c, pr, pc);
                        }
                        if self.col_confined(blk, d, c) {
                            assert(pc == c);
                            lemma_answer_apart(g, Line::Column, c, r, c, pr, pc);
                        }
                    },
                }
            }
        }
        self.lemma_erase_admits(g, ds, region);
        self.lemma_erase_coherent(ds, region);
        let out = self.erase(ds, region);
        assert(out.grown_from(self));
        self.lemma_noted_grows(out, d, 9);
    }

    /// The same for the first `n` blocks.
    pub proof fn lemma_point_blocks_sound(self, g: Seq<Seq<usize>>, d: usize, n: int)
        requires
            self.wf(),
            answer(g),
            self.admits(g),
            self.coherent(),
            self.noted(d, 9),
            0 <= n <= 9,
            1 <= d <= 9,
        ensures
            self.point_blocks(d, n).admits(g),
            self.point_blocks(d, n).coherent(),
            self.point_blocks(d, n).grown_from(self),
            self.point_blocks(d, n).noted(d, 9),
        decreases n,
    {
        self.lemma_grown(self, self);
        if n > 0 {
            let p = self.point_blocks(d, n - 1);
            self.lemma_point_blocks_sound(g, d, n - 1);
            self.lemma_point_blocks(d, n - 1);
            p.lemma_point_block_sound(g, n - 1, d);
            self.lemma_grown(p, p.point_block(n - 1, d));
        }
    }

    /// The cells at the places `hs` of block `blk` are open.
    pub open spec fn open_at(self, blk: int, hs: Seq<usize>) -> bool {
        forall|n: int| 0 <= n < hs.len() ==> (#[trigger] self.on(Line::Block, blk, hs[n] as int)) is Candidates
    }

    /// Cells that are open stay open as the board grows.
    pub proof fn lemma_open_at_grows(self, later: Board, blk: int, hs: Seq<usize>)
        requires
            later.grown_from(self),
            self.open_at(blk, hs),
            ascending(hs),
            0 <= blk < 9,
        ensures
            later.open_at(blk, hs),
    {
        lemma_line_geometry(Line::Block, blk);
        assert forall|n: int| 0 <= n < hs.len() implies (#[trigger] later.on(
            Line::Block,
            blk,
            hs[n] as int,
        )) is Candidates by {
            let (r, c) = cell_of(Line::Block, blk, hs[n] as int);
            assert(inside(r, c));
            assert(self.on(Line::Block, blk, hs[n] as int) is Candidates);
            assert(later.at(r, c).struck_from(self.at(r, c)));
        }
    }

    /// The digits that some places of a block offer are digits, finitely many.
    pub proof fn lemma_pool_digits(self, blk: int, chosen: Set<usize>)
        requires
            self.wf(),
            0 <= blk < 9,
        ensures
            self.pool(blk, chosen).finite(),
            self.pool(blk, chosen).subset_of(digits()),
    {
        lemma_nine_digits();
        lemma_line_geometry(Line::Block, blk);
        assert forall|d: usize| self.pool(blk, chosen).contains(d) implies digits().contains(d) by {
            let k = choose|k: usize|
                chosen.contains(k) && k < 9 && (#[trigger] self.on(Line::Block, blk, k as int)).offers(d);
            let (r, c) = cell_of(Line::Block, blk, k as int);
            assert(inside(r, c));
            assert(self.at(r, c).valid());
        }
        lemma_len_subset(self.pool(blk, chosen), digits());
    }

    /// A step of the naked-subset rule is sound where the chosen places are
    /// as many different open cells as the step asks digits of them.
    pub proof fn lemma_subset_step_sound(
        self,
        g: Seq<Seq<usize>>,
        blk: int,
        hs: Seq<usize>,
        picks: Seq<usize>,
        size: nat,
    )
        requires
            self.wf(),
            answer(g),
            self.admits(g),
            self.coherent(),
            0 <= blk < 9,
            picks.len() == size,
            2 <= size <= 3,
            picks.no_duplicates(),
            forall|n: int|
                0 <= n < picks.len() ==> (#[trigger] picks[n]) < 9 && self.on(
                    Line::Block,
                    blk,
                    picks[n] as int,
                ) is Candidates,
        ensures
            self.subset_step(blk, hs, picks.to_set(), size).admits(g),
            self.subset_step(blk, hs, picks.to_set(), size).coherent(),
            self.subset_step(blk, hs, picks.to_set(), size).grown_from(self),
    {
        let chosen = picks.to_set();
        let ds = self.pool(blk, chosen);
        let region = others(blk, hs, chosen, hs.len() as int);
        self.lemma_grown(self, self);
        self.lemma_pool_digits(blk, chosen);
        lemma_line_geometry(Line::Block, blk);
        if ds.len() == size {
            let needs = Seq::new(size, |n: int| digit_on(g, Line::Block, blk, picks[n] as int));
            assert forall|n: int| 0 <= n < size implies ds.contains(#[trigger] needs[n]) by {
                let k = picks[n];
                let (r, c) = cell_of(Line::Block, blk, k as int);
                assert(inside(r, c));
                assert(chosen.contains(k));
                assert(self.on(Line::Block, blk, k as int) is Candidates);
                assert(self.at(r, c).offers(g[r][c]));
            }
            assert forall|m: int, n: int| 0 <= m < size && 0 <= n < size && m != n implies needs[m]
                != needs[n] by {
                let (r, c) = cell_of(Line::Block, blk, picks[m] as int);
                let (s, t) = cell_of(Line::Block, blk, picks[n] as int);
                assert(inside(r, c) && inside(s, t));
                assert(place_on(Line::Block, r, c) == picks[m] && place_on(Line::Block, s, t) == picks[n]);
                lemma_answer_apart(g, Line::Block, blk, r, c, s, t);
            }
            needs.unique_seq_to_set();
            assert(needs.to_set().subset_of(ds));
            lemma_len_subset(needs.to_set(), ds);
            lemma_subset_equality(needs.to_set(), ds);
            assert forall|r: int, c: int|
                inside(r, c) && #[trigger] region(r, c) && self.at(r, c) is Candidates implies !ds.contains(
                g[r][c],
            ) by {
                if ds.contains(g[r][c]) {
                    assert(needs.to_set().contains(g[r][c]));
                    let n = choose|n: int| 0 <= n < needs.len() && needs[n] == g[r][c];
                    let (s, t) = cell_of(Line::Block, blk, picks[n] as int);
                    assert(inside(s, t));
                    let w = choose|w: int|
                        0 <= w < hs.len() && w < hs.len() && #[trigger] hs[w] == place_on(Line::Block, r, c)
                            && !chosen.contains(hs[w]);
                    assert(chosen.contains(picks[n]));
                    assert(place_on(Line::Block, s, t) == picks[n]);
                    lemma_answer_apart(g, Line::Block, blk, r, c, s, t);
                }
            }
            self.lemma_erase_admits(g, ds, region);
            self.lemma_erase_coherent(ds, region);
        }
    }

    /// The holders of a digit are open cells.
    pub proof fn lemma_holders_open(self, blk: int, d: usize, upto: int)
        requires
            0 <= upto <= 9,
        ensures
            self.open_at(blk, self.holders(blk, d, upto)),
        decreases upto,
    {
        if upto > 0 {
            self.lemma_holders_open(blk, d, upto - 1);
            let before = self.holders(blk, d, upto - 1);
            let hs = self.holders(blk, d, upto);
            assert forall|n: int| 0 <= n < hs.len() implies (#[trigger] self.on(
                Line::Block,
                blk,
                hs[n] as int,
            )) is Candidates by {
                if n < before.len() {
                    assert(hs[n] == before[n]);
                    assert(self.on(Line::Block, blk, before[n] as int) is Candidates);
                }
            }
        }
    }

    /// The steps over pairs are sound.
    pub proof fn lemma_pairs_sound(self, g: Seq<Seq<usize>>, blk: int, hs: Seq<usize>, j: int, i: int)
        requires
            self.wf(),
            answer(g),
            self.admits(g),
            self.coherent(),
            0 <= blk < 9,
            ascending(hs),
            self.open_at(blk, hs),
            0 <= i <= j <= hs.len(),
            i > 0 ==> j < hs.len(),
        ensures
            self.pairs(blk, hs, j, i).admits(g),
            self.pairs(blk, hs, j, i).coherent(),
            self.pairs(blk, hs, j, i).grown_from(self),
        decreases j, i,
    {
        self.lemma_grown(self, self);
        if j <= 0 {
        } else if i <= 0 {
            self.lemma_pairs_sound(g, blk, hs, j - 1, j - 1);
        } else {
            let p = self.pairs(blk, hs, j, i - 1);
            self.lemma_pairs_sound(g, blk, hs, j, i - 1);
            self.lemma_pairs(blk, hs, j, i - 1);
            self.lemma_open_at_grows(p, blk, hs);
            let picks = seq![hs[i - 1], hs[j]];
            assert(picks.to_set() =~= set![hs[i - 1], hs[j]]) by {
                assert(picks[0] == hs[i - 1] && picks[1] == hs[j]);
                assert forall|x: usize| set![hs[i - 1], hs[j]].contains(x) implies picks.to_set().contains(
                    x,
                ) by {
                    if x == hs[i - 1] {
                        assert(picks[0] == x);
                    } else {
                        assert(picks[1] == x);
                    }
                }
            }
            assert(hs[i - 1] < hs[j]);
            assert(p.on(Line::Block, blk, hs[i - 1] as int) is Candidates);
            assert(p.on(Line::Block, blk, hs[j] as int) is Candidates);
            p.lemma_subset_step_sound(g, blk, hs, picks, 2);
            self.lemma_grown(p, p.subset_step(blk, hs, picks.to_set(), 2));
        }
    }

    /// The steps over triples are sound.
    pub proof fn lemma_triples_sound(
        self,
        g: Seq<Seq<usize>>,
        blk: int,
        hs: Seq<usize>,
        c: int,
        b: int,
        a: int,
    )
        requires
            self.wf(),
            answer(g),
            self.admits(g),
            self.coherent(),
            0 <= blk < 9,
            ascending(hs),
            self.open_at(blk, hs),
            0 <= a <= b <= c <= hs.len(),
            b > 0 ==> c < hs.len(),
            a > 0 ==> b < c,
        ensures
            self.triples(blk, hs, c, b, a).admits(g),
            self.triples(blk, hs, c, b, a).coherent(),
            self.triples(blk, hs, c, b, a).grown_from(self),
        decreases c, b, a,
    {
        self.lemma_grown(self, self);
        if c <= 0 {
        } else if b <= 0 {
            self.lemma_triples_sound(g, blk, hs, c - 1, c - 1, 0);
        } else if a <= 0 {
            self.lemma_triples_sound(g, blk, hs, c, b - 1, b - 1);
        } else {
            let p = self.triples(blk, hs, c, b, a - 1);
            self.lemma_triples_sound(g, blk, hs, c, b, a - 1);
            self.lemma_triples(blk, hs, c, b, a - 1);
            self.lemma_open_at_grows(p, blk, hs);
            let picks = seq![hs[a - 1], hs[b], hs[c]];
            assert(picks.to_set() =~= set![hs[a - 1], hs[b], hs[c]]) by {
                assert(picks[0] == hs[a - 1] && picks[1] == hs[b] && picks[2] == hs[c]);
                assert forall|x: usize| set![hs[a - 1], hs[b], hs[c]].contains(x) implies picks.to_set().contains(
                    x,
                ) by {
                    if x == hs[a - 1] {
                        assert(picks[0] == x);
                    } else if x == hs[b] {
                        assert(picks[1] == x);
                    } else {
                        assert(picks[2] == x);
                    }
                }
            }
            assert(hs[a - 1] < hs[b] && hs[b] < hs[c] && hs[a - 1] < hs[c]);
            assert(p.on(Line::Block, blk, hs[a - 1] as int) is Candidates);
            assert(p.on(Line::Block, blk, hs[b] as int) is Candidates);
            assert(p.on(Line::Block, blk, hs[c] as int) is Candidates);
            p.lemma_subset_step_sound(g, blk, hs, picks, 3);
            self.lemma_grown(p, p.subset_step(blk, hs, picks.to_set(), 3));
        }
    }

    /// The naked-subset rule is sound on a block.
    pub proof fn lemma_subsets_block_sound(self, g: Seq<Seq<usize>>, blk: int, d: usize)
        requires
            self.wf(),
            answer(g),
            self.admits(g),
            self.coherent(),
            0 <= blk < 9,
        ensures
            self.subsets_block(blk, d).admits(g),
            self.subsets_block(blk, d).coherent(),
            self.subsets_block(blk, d).grown_from(self),
    {
        self.lemma_grown(self, self);
        if !self.block_settled(blk, d) {
            let hs = self.holders(blk, d, 9);
            let n = hs.len() as int;
            self.lemma_holders(blk, d, 9);
            self.lemma_holders_open(blk, d, 9);
            self.lemma_pairs_sound(g, blk, hs, n, 0);
            self.lemma_pairs(blk, hs, n, 0);
            let p = self.pairs(blk, hs, n, 0);
            self.lemma_open_at_grows(p, blk, hs);
            p.lemma_triples_sound(g, blk, hs, n, 0, 0);
            self.lemma_grown(p, p.triples(blk, hs, n, 0, 0));
        }
    }

    /// The same for the first `n` blocks.
    pub proof fn lemma_subsets_sound(self, g: Seq<Seq<usize>>, d: usize, n: int)
        requires
            self.wf(),
            answer(g),
            self.admits(g),
            self.coherent(),
            0 <= n <= 9,
        ensures
            self.subsets(d, n).admits(g),
            self.subsets(d, n).coherent(),
            self.subsets(d, n).grown_from(self),
        decreases n,
    {
        self.lemma_grown(self, self);
        if n > 0 {
            let p = self.subsets(d, n - 1);
            self.lemma_subsets_sound(g, d, n - 1);
            self.lemma_subsets(d, n - 1);
            p.lemma_subsets_block_sound(g, n - 1, d);
            self.lemma_grown(p, p.subsets_block(n - 1, d));
        }
    }

    /// The three rules for one digit are sound.
    pub proof fn lemma_deduce_sound(self, g: Seq<Seq<usize>>, d: usize)
        requires
            self.wf(),
            answer(g),
            self.admits(g),
            self.coherent(),
            1 <= d <= 9,
        ensures
            self.deduce(d).admits(g),
            self.deduce(d).coherent(),
    {
        let a = self.clear_all_lines(d);
        let b = a.point_blocks(d, 9);
        self.lemma_clear_all_lines_sound(g, d);
        self.lemma_clear_all_lines(d);
        a.lemma_point_blocks_sound(g, d, 9);
        a.lemma_point_blocks(d, 9);
        b.lemma_subsets_sound(g, d, 9);
    }

    /// The rules for the digits 1 to `n` are sound.
    pub proof fn lemma_deduce_upto_sound(self, g: Seq<Seq<usize>>, n: int)
        requires
            self.wf(),
            answer(g),
            self.admits(g),
            self.coherent(),
            0 <= n <= 9,
        ensures
            self.deduce_upto(n).admits(g),
            self.deduce_upto(n).coherent(),
        decreases n,
    {
        if n > 0 {
            self.lemma_deduce_upto_sound(g, n - 1);
            self.lemma_deduce_upto(n - 1);
            self.deduce_upto(n - 1).lemma_deduce_sound(g, n as usize);
        }
    }

    /// Settling an open cell on a digit it offers keeps the records true;
    /// where the digit is the grid's, the grid stays possible.
    pub proof fn lemma_put_sound(self, g: Seq<Seq<usize>>, r: int, c: int, e: usize)
        requires
            self.wf(),
            self.coherent(),
            inside(r, c),
            1 <= e <= 9,
            self.at(r, c).offers(e),
        ensures
            self.put(r, c, Cell::Fixed(e)).coherent(),
            self.admits(g) && g[r][c] == e ==> self.put(r, c, Cell::Fixed(e)).admits(g),
    {
        let out = self.put(r, c, Cell::Fixed(e));
        self.lemma_put(r, c, Cell::Fixed(e));
        if self.admits(g) && g[r][c] == e {
            assert forall|x: int, y: int| inside(x, y) implies match #[trigger] out.at(x, y) {
                Cell::Fixed(d) => g[x][y] == d,
                Cell::Candidates(s) => s.contains(g[x][y]),
            } by {
                if !(x == r && y == c) {
                    assert(out.at(x, y) == self.at(x, y));
                }
            }
        }
        assert forall|kind: Line, i: int, d: usize|
            0 <= i < 9 && 1 <= d <= 9 && #[trigger] out.done(kind, i, d) implies exists|k: int|
            0 <= k < 9 && out.only_at(kind, i, d, k) by {
            assert(self.done(kind, i, d));
            let k = choose|k: int| 0 <= k < 9 && self.only_at(kind, i, d, k);
            lemma_line_geometry(kind, i);
            assert forall|j: int| 0 <= j < 9 && j != k implies !(#[trigger] out.on(kind, i, j)).offers(d)
                && out.on(kind, i, j) != Cell::Fixed(d) by {
                let (x, y) = cell_of(kind, i, j);
                assert(inside(x, y));
                assert(!self.on(kind, i, j).offers(d) && self.on(kind, i, j) != Cell::Fixed(d));
                if !(x == r && y == c) {
                    assert(out.at(x, y) == self.at(x, y));
                }
            }
            assert(out.only_at(kind, i, d, k));
        }
    }

    /// Confirming a cell is sound.
    pub proof fn lemma_confirm_at_sound(self, g: Seq<Seq<usize>>, r: int, c: int)
        requires
            self.wf(),
            answer(g),
            self.admits(g),
            self.coherent(),
            inside(r, c),
        ensures
            self.confirm_at(r, c).admits(g),
            self.confirm_at(r, c).coherent(),
    {
        match self.at(r, c).single() {
            Some(e) => {
                lemma_cell_settle(self.at(r, c));
                assert(self.at(r, c).valid());
                let cs = self.at(r, c)->Candidates_0;
                lemma_single(cs);
                assert(cs.contains(g[r][c]));
                assert(g[r][c] == e);
                self.lemma_put_sound(g, r, c, e);
                self.lemma_put(r, c, Cell::Fixed(e));
                let p = self.put(r, c, Cell::Fixed(e));
                let ds = set![e];
                let region = peers(r, c, 81);
                assert forall|x: int, y: int|
                    inside(x, y) && #[trigger] region(x, y) && p.at(x, y) is Candidates implies !ds.contains(
                    g[x][y],
                ) by {
                    if !(x == r && y == c) {
                        if x == r {
                            lemma_answer_apart(g, Line::Row, r, r, c, x, y);
                        } else if y == c {
                            lemma_answer_apart(g, Line::Column, c, r, c, x, y);
                        } else {
                            let blk = block_of(r, c);
                            lemma_cell_block(r, c);
                            lemma_answer_apart(g, Line::Block, blk, r, c, x, y);
                        }
                    }
                }
                p.lemma_erase_admits(g, ds, region);
                p.lemma_erase_coherent(ds, region);
            },
            None => {},
        }
    }

    /// The confirming sweep is sound.
    pub proof fn lemma_sweep_sound(self, g: Seq<Seq<usize>>, n: int)
        requires
            self.wf(),
            answer(g),
            self.admits(g),
            self.coherent(),
            0 <= n <= 81,
        ensures
            self.sweep(n).admits(g),
            self.sweep(n).coherent(),
        decreases n,
    {
        if n > 0 {
            self.lemma_sweep_sound(g, n - 1);
            self.lemma_sweep(n - 1);
            self.sweep(n - 1).lemma_confirm_at_sound(g, (n - 1) / 9, (n - 1) % 9);
        }
    }

    /// A round of propagation is sound: on a board with true records it
    /// strikes no digit that a solution needs and settles no cell against
    /// it, and it leaves the records true.
    pub proof fn lemma_round_sound(self, g: Seq<Seq<usize>>)
        requires
            self.wf(),
            answer(g),
            self.admits(g),
            self.coherent(),
        ensures
            self.round().admits(g),
            self.round().coherent(),
    {
        self.lemma_deduce_upto_sound(g, 9);
        self.lemma_deduce_upto(9);
        self.deduce_upto(9).lemma_sweep_sound(g, 81);
    }

    /// Propagation to a standstill is sound.
    pub proof fn lemma_settle_all_sound(self, g: Seq<Seq<usize>>)
        requires
            self.wf(),
            answer(g),
            self.admits(g),
            self.coherent(),
        ensures
            self.settle_all().admits(g),
            self.settle_all().coherent(),
        decreases self.weight(),
    {
        let next = self.round();
        self.lemma_round();
        self.lemma_round_sound(g);
        self.lemma_narrows_weight(next);
        if !self.same_cells(next) {
            next.lemma_settle_all_sound(g);
        }
    }

    /// A board with no open cell that admits a solved grid is that grid,
    /// and the validator finds it solved.
    pub proof fn lemma_full_is_answer(self, g: Seq<Seq<usize>>)
        requires
            self.shaped(),
            answer(g),
            self.admits(g),
            !self.vacant(),
        ensures
            forall|r: int, c: int| inside(r, c) ==> #[trigger] self.at(r, c) == Cell::Fixed(g[r][c]),
            self.solved(),
            self.verdict() == Some(true),
    {
        assert forall|r: int, c: int| inside(r, c) implies #[trigger] self.at(r, c) == Cell::Fixed(
            g[r][c],
        ) by {
            assert(!(self.at(r, c) is Candidates));
        }
        lemma_verdict_solved(self);
        assert forall|kind: Line, i: int| 0 <= i < 9 implies #[trigger] self.line_complete(kind, i) by {
            lemma_line_geometry(kind, i);
            assert forall|k: int| 0 <= k < 9 implies #[trigger] self.on(kind, i, k) is Fixed by {
                assert(inside(cell_of(kind, i, k).0, cell_of(kind, i, k).1));
            }
            assert forall|j: int, k: int| 0 <= j < k < 9 implies #[trigger] self.on(kind, i, j)
                != #[trigger] self.on(kind, i, k) by {
                assert(inside(cell_of(kind, i, j).0, cell_of(kind, i, j).1));
                assert(inside(cell_of(kind, i, k).0, cell_of(kind, i, k).1));
                assert(digit_on(g, kind, i, j) != digit_on(g, kind, i, k));
            }
        }
    }
}

/// The board of a puzzle text holds no record, so its records are true.
pub proof fn lemma_board_from_coherent(text: Seq<Seq<char>>)
    requires
        puzzle_text(text),
    ensures
        board_from(text).coherent(),
{
    lemma_board_from(text);
}

/// A puzzle that has a solution and that propagation alone fills is filled
/// with that solution: where the board of the text admits a solved grid and
/// propagation to a standstill leaves no cell open, every cell is settled as
/// the grid says, and the validator finds the board solved.
pub proof fn lemma_propagation_finds_the_answer(text: Seq<Seq<char>>, g: Seq<Seq<usize>>)
    requires
        puzzle_text(text),
        answer(g),
        board_from(text).admits(g),
        !board_from(text).settle_all().vacant(),
    ensures
        board_from(text).settle_all().verdict() == Some(true),
        forall|r: int, c: int|
            inside(r, c) ==> #[trigger] board_from(text).settle_all().at(r, c) == Cell::Fixed(g[r][c]),
{
    let b = board_from(text);
    lemma_board_from(text);
    lemma_board_from_coherent(text);
    b.lemma_settle_all();
    b.lemma_settle_all_sound(g);
    b.settle_all().lemma_full_is_answer(g);
}

} // verus!
