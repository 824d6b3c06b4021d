//! Line uniqueness: once a digit is pinned to one cell of a row, column or
//! block, it is struck from the other cells of that line.
use super::board::{position, SudokuSolver};
use super::grid::{cell_of, lemma_line_geometry, lies_on, place_on, Board, Line};
use crate::solver::par_map;
use vstd::prelude::*;

verus! {

/// The cells of line `i` that stand before place `upto`, but for the one at
/// place `skip`.
pub open spec fn line_except(kind: Line, i: int, skip: int, upto: int) -> spec_fn(int, int) -> bool {
    |r: int, c: int| lies_on(kind, i, r, c) && place_on(kind, r, c) != skip && place_on(kind, r, c) < upto
}

impl Board {
    /// Place `k` is the one place on line `i` where digit `d` is pinned.
    pub open spec fn pinned_at(self, kind: Line, i: int, d: usize, k: int) -> bool {
        &&& 0 <= k < 9
        &&& self.on(kind, i, k).pins(d)
        &&& forall|j: int| 0 <= j < 9 && j != k ==> !(#[trigger] self.on(kind, i, j)).pins(d)
    }

    /// The rule applies: the line is not yet recorded as cleared of `d`, and
    /// `d` is pinned to exactly one of its cells.
    pub open spec fn line_ready(self, kind: Line, i: int, d: usize) -> bool {
        !self.done(kind, i, d) && exists|k: int| self.pinned_at(kind, i, d, k)
    }

    /// The board after line uniqueness is applied to line `i` for digit `d`:
    /// where the rule applies, the line is recorded as cleared and `d` is
    /// struck from every cell of the line but the one that pins it.
    pub open spec fn clear_line(self, kind: Line, i: int, d: usize) -> Board {
        if self.line_ready(kind, i, d) {
            let k = choose|k: int| self.pinned_at(kind, i, d, k);
            self.mark(kind, i, d).erase(set![d], line_except(kind, i, k, 9))
        } else {
            self
        }
    }

    /// The board after the first `n` lines of one kind are treated for `d`.
    pub open spec fn clear_lines(self, kind: Line, d: usize, n: int) -> Board
        decreases n,
    {
        if n <= 0 {
            self
        } else {
            self.clear_lines(kind, d, n - 1).clear_line(kind, n - 1, d)
        }
    }

    /// The board after all rows, then all columns, then all blocks are treated for `d`.
    pub open spec fn clear_all_lines(self, d: usize) -> Board {
        self.clear_lines(Line::Row, d, 9).clear_lines(Line::Column, d, 9).clear_lines(
            Line::Block,
            d,
            9,
        )
    }

    /// Line uniqueness keeps the board well formed and narrows it.
    pub proof fn lemma_clear_line(self, kind: Line, i: int, d: usize)
        requires
            self.wf(),
            0 <= i < 9,
            1 <= d <= 9,
        ensures
            self.clear_line(kind, i, d).wf(),
            self.narrows_to(self.clear_line(kind, i, d)),
    {
        if self.line_ready(kind, i, d) {
            let k = choose|k: int| self.pinned_at(kind, i, d, k);
            let m = self.mark(kind, i, d);
            self.lemma_mark(kind, i, d);
            m.lemma_erase(set![d], line_except(kind, i, k, 9));
            self.lemma_narrows_trans(m, m.erase(set![d], line_except(kind, i, k, 9)));
        } else {
            self.lemma_narrows_refl();
        }
    }

    /// Treating the first `n` lines of a kind keeps the board well formed and narrows it.
    pub proof fn lemma_clear_lines(self, kind: Line, d: usize, n: int)
        requires
            self.wf(),
            0 <= n <= 9,
            1 <= d <= 9,
        ensures
            self.clear_lines(kind, d, n).wf(),
            self.narrows_to(self.clear_lines(kind, d, n)),
        decreases n,
    {
        if n <= 0 {
            self.lemma_narrows_refl();
        } else {
            self.lemma_clear_lines(kind, d, n - 1);
            let p = self.clear_lines(kind, d, n - 1);
            p.lemma_clear_line(kind, n - 1, d);
            self.lemma_narrows_trans(p, p.clear_line(kind, n - 1, d));
        }
    }

    /// Treating every line for `d` keeps the board well formed and narrows it.
    pub proof fn lemma_clear_all_lines(self, d: usize)
        requires
            self.wf(),
            1 <= d <= 9,
        ensures
            self.clear_all_lines(d).wf(),
            self.narrows_to(self.clear_all_lines(d)),
    {
        let a = self.clear_lines(Line::Row, d, 9);
        let b = a.clear_lines(Line::Column, d, 9);
        let c = b.clear_lines(Line::Block, d, 9);
        self.lemma_clear_lines(Line::Row, d, 9);
        a.lemma_clear_lines(Line::Column, d, 9);
        b.lemma_clear_lines(Line::Block, d, 9);
        self.lemma_narrows_trans(a, b);
        self.lemma_narrows_trans(b, c);
    }

    /// Line uniqueness on one line leaves the other lines of its kind as
    /// they are: their cells and their records.
    pub proof fn lemma_clear_line_frame(self, kind: Line, j: int, d: usize, i: int)
        requires
            self.wf(),
            0 <= j < 9,
            0 <= i < 9,
            i != j,
            1 <= d <= 9,
        ensures
            forall|k: int|
                0 <= k < 9 ==> #[trigger] self.clear_line(kind, j, d).on(kind, i, k) == self.on(kind, i, k),
            self.clear_line(kind, j, d).done(kind, i, d) == self.done(kind, i, d),
    {
        let out = self.clear_line(kind, j, d);
        lemma_line_geometry(kind, i);
        assert forall|k: int| 0 <= k < 9 implies #[trigger] out.on(kind, i, k) == self.on(kind, i, k) by {
            let (r, c) = cell_of(kind, i, k);
            assert(lies_on(kind, i, r, c) && !lies_on(kind, j, r, c));
        }
    }

    /// The same for the first `n` lines treated, and every line from the `n`-th on.
    pub proof fn lemma_clear_lines_frame(self, kind: Line, d: usize, n: int, i: int)
        requires
            self.wf(),
            0 <= n <= i < 9,
            1 <= d <= 9,
        ensures
            forall|k: int|
                0 <= k < 9 ==> #[trigger] self.clear_lines(kind, d, n).on(kind, i, k) == self.on(kind, i, k),
            self.clear_lines(kind, d, n).done(kind, i, d) == self.done(kind, i, d),
            self.clear_lines(kind, d, n).line_ready(kind, i, d) == self.line_ready(kind, i, d),
            forall|p: int|
                self.clear_lines(kind, d, n).pinned_at(kind, i, d, p) == self.pinned_at(kind, i, d, p),
        decreases n,
    {
        let out = self.clear_lines(kind, d, n);
        if n > 0 {
            let before = self.clear_lines(kind, d, n - 1);
            self.lemma_clear_lines_frame(kind, d, n - 1, i);
            self.lemma_clear_lines(kind, d, n - 1);
            before.lemma_clear_line_frame(kind, n - 1, d, i);
            assert forall|k: int| 0 <= k < 9 implies #[trigger] out.on(kind, i, k) == self.on(
                kind,
                i,
                k,
            ) by {
                assert(before.on(kind, i, k) == self.on(kind, i, k));
            }
        }
        assert forall|p: int| out.pinned_at(kind, i, d, p) == self.pinned_at(kind, i, d, p) by {
            if out.pinned_at(kind, i, d, p) {
                assert(out.on(kind, i, p) == self.on(kind, i, p));
                assert forall|q: int| 0 <= q < 9 && q != p implies !(#[trigger] self.on(kind, i, q)).pins(
                    d,
                ) by {
                    assert(out.on(kind, i, q) == self.on(kind, i, q));
                }
            }
            if self.pinned_at(kind, i, d, p) {
                assert(out.on(kind, i, p) == self.on(kind, i, p));
                assert forall|q: int| 0 <= q < 9 && q != p implies !(#[trigger] out.on(kind, i, q)).pins(
                    d,
                ) by {
                    assert(out.on(kind, i, q) == self.on(kind, i, q));
                }
            }
        }
        if out.line_ready(kind, i, d) {
            let p = choose|p: int| out.pinned_at(kind, i, d, p);
            assert(self.pinned_at(kind, i, d, p));
        }
        if self.line_ready(kind, i, d) {
            let p = choose|p: int| self.pinned_at(kind, i, d, p);
            assert(out.pinned_at(kind, i, d, p));
        }
    }
}

impl SudokuSolver {
    /// Applies line uniqueness to line `i` of the given kind for digit `num`.
    /// Returns whether a cell changed.
    pub fn line_search(&mut self, kind: Line, i: usize, num: usize) -> (changed: bool)
        requires
            old(self).wf(),
            i < 9,
            1 <= num <= 9,
        ensures
            final(self)@ == old(self)@.clear_line(kind, i as int, num),
            changed == !old(self)@.same_cells(final(self)@),
            final(self).wf(),
    {
        match self.line_plan(kind, i, num) {
            None => {
                proof {
                    self@.lemma_narrows_refl();
                }
                false
            },
            Some(found) => self.apply_line(kind, i, num, found),
        }
    }

    /// Where on line `i` the digit `num` is pinned, if line uniqueness
    /// applies there: the line is not yet recorded as cleared of `num`, and
    /// exactly one of its cells pins it.
    pub fn line_plan(&self, kind: Line, i: usize, num: usize) -> (plan: Option<usize>)
        requires
            self.wf(),
            i < 9,
            1 <= num <= 9,
        ensures
            match plan {
                Some(found) => self@.line_ready(kind, i as int, num) && self@.pinned_at(
                    kind,
                    i as int,
                    num,
                    found as int,
                ),
                None => !self@.line_ready(kind, i as int, num),
            },
    {
        let ghost start = self@;
        if self.is_done(kind, i, num) {
            return None;
        }
        let mut seen: usize = 0;
        let mut found: usize = 0;
        let mut k: usize = 0;
        while k < 9
            invariant
                k <= 9,
                i < 9,
                1 <= num <= 9,
                self.wf(),
                self@ == start,
                seen <= 2,
                found < 9,
                seen == 0 ==> forall|j: int| 0 <= j < k ==> !(#[trigger] start.on(kind, i as int, j)).pins(num),
                seen == 1 ==> found < k && start.on(kind, i as int, found as int).pins(num)
                    && forall|j: int|
                    0 <= j < k && j != found ==> !(#[trigger] start.on(kind, i as int, j)).pins(num),
                seen == 2 ==> exists|a: int, b: int|
                    0 <= a < b < k && (#[trigger] start.on(kind, i as int, a)).pins(num) && (
                    #[trigger] start.on(kind, i as int, b)).pins(num),
            decreases 9 - k,
        {
            let (r, c) = position(kind, i, k);
            if self.field[r][c].pins(num) {
                proof {
                    assert(start.on(kind, i as int, k as int).pins(num));
                    if seen == 1 {
                        assert(start.on(kind, i as int, found as int).pins(num));
                    }
                }
                if seen < 2 {
                    seen += 1;
                }
                found = k;
            }
            k += 1;
        }
        if seen != 1 {
            proof {
                if exists|p: int| start.pinned_at(kind, i as int, num, p) {
                    let p = choose|p: int| start.pinned_at(kind, i as int, num, p);
                    if seen == 0 {
                        assert(!start.on(kind, i as int, p).pins(num));
                    } else {
                        let (a, b) = choose|a: int, b: int|
                            0 <= a < b < 9 && (#[trigger] start.on(kind, i as int, a)).pins(num) && (
                            #[trigger] start.on(kind, i as int, b)).pins(num);
                        if a != p {
                            assert(!start.on(kind, i as int, a).pins(num));
                        } else {
                            assert(!start.on(kind, i as int, b).pins(num));
                        }
                    }
                }
            }
            return None;
        }
        assert(start.pinned_at(kind, i as int, num, found as int));
        Some(found)
    }

    /// Clears line `i` of digit `num`, which is pinned at place `found`:
    /// records the line as cleared and strikes the digit from its other
    /// cells. Returns whether a cell changed.
    pub fn apply_line(&mut self, kind: Line, i: usize, num: usize, found: usize) -> (changed: bool)
        requires
            old(self).wf(),
            i < 9,
            1 <= num <= 9,
            old(self)@.line_ready(kind, i as int, num),
            old(self)@.pinned_at(kind, i as int, num, found as int),
        ensures
            final(self)@ == old(self)@.clear_line(kind, i as int, num),
            changed == !old(self)@.same_cells(final(self)@),
            final(self).wf(),
    {
        let ghost start = self@;
        proof {
            let p = choose|p: int| start.pinned_at(kind, i as int, num, p);
            if p != found {
                assert(!start.on(kind, i as int, p).pins(num));
            }
            assert(p == found);
            start.lemma_mark(kind, i as int, num);
        }
        self.set_done(kind, i, num);
        let ghost marked = self@;
        let ghost ds = set![num];
        let mut changed = false;
        let mut k: usize = 0;
        proof {
            marked.lemma_erase_nothing(ds, line_except(kind, i as int, found as int, 0));
            lemma_line_geometry(kind, i as int);
        }
        while k < 9
            invariant
                k <= 9,
                i < 9,
                found < 9,
                1 <= num <= 9,
                ds == set![num],
                marked.wf(),
                self.wf(),
                self@ == marked.erase(ds, line_except(kind, i as int, found as int, k as int)),
                changed == marked.hit(ds, line_except(kind, i as int, found as int, k as int)),
            decreases 9 - k,
        {
            let (r, c) = position(kind, i, k);
            proof {
                lemma_line_geometry(kind, i as int);
                assert(cell_of(kind, i as int, k as int) == (r as int, c as int));
            }
            if k != found {
                proof {
                    marked.lemma_erase_grow(
                        ds,
                        line_except(kind, i as int, found as int, k as int),
                        line_except(kind, i as int, found as int, k + 1),
                        r as int,
                        c as int,
                    );
                }
                let hit = self.strike_at(r, c, num);
                changed = changed || hit;
            } else {
                proof {
                    marked.lemma_erase_same(
                        ds,
                        line_except(kind, i as int, found as int, k as int),
                        line_except(kind, i as int, found as int, k + 1),
                    );
                }
            }
            k += 1;
        }
        proof {
            marked.lemma_erase(ds, line_except(kind, i as int, found as int, 9));
            assert(forall|r: int, c: int| start.at(r, c) == marked.at(r, c));
        }
        changed
    }

    /// Applies line uniqueness to row `row` for digit `num`. Returns whether
    /// a cell changed.
    pub fn row_search(&mut self, row: usize, num: usize) -> (changed: bool)
        requires
            old(self).wf(),
            row < 9,
            1 <= num <= 9,
        ensures
            final(self)@ == old(self)@.clear_line(Line::Row, row as int, num),
            changed == !old(self)@.same_cells(final(self)@),
            final(self).wf(),
    {
        self.line_search(Line::Row, row, num)
    }

    /// Applies line uniqueness to column `col` for digit `num`. Returns
    /// whether a cell changed.
    pub fn col_search(&mut self, col: usize, num: usize) -> (changed: bool)
        requires
            old(self).wf(),
            col < 9,
            1 <= num <= 9,
        ensures
            final(self)@ == old(self)@.clear_line(Line::Column, col as int, num),
            changed == !old(self)@.same_cells(final(self)@),
            final(self).wf(),
    {
        self.line_search(Line::Column, col, num)
    }

    /// Applies line uniqueness to block `block` for digit `num`. Returns
    /// whether a cell changed.
    pub fn block_search(&mut self, block: usize, num: usize) -> (changed: bool)
        requires
            old(self).wf(),
            block < 9,
            1 <= num <= 9,
        ensures
            final(self)@ == old(self)@.clear_line(Line::Block, block as int, num),
            changed == !old(self)@.same_cells(final(self)@),
            final(self).wf(),
    {
        self.line_search(Line::Block, block, num)
    }

    /// Applies line uniqueness to the nine lines of one kind, in order.
    /// Returns whether a cell changed.
    pub fn lines_search(&mut self, kind: Line, num: usize) -> (changed: bool)
        requires
            old(self).wf(),
            1 <= num <= 9,
        ensures
            final(self)@ == old(self)@.clear_lines(kind, num, 9),
            changed == !old(self)@.same_cells(final(self)@),
            final(self).wf(),
    {
        let ghost start = self@;
        let mut changed = false;
        let mut i: usize = 0;
        proof {
            start.lemma_narrows_refl();
        }
        while i < 9
            invariant
                i <= 9,
                1 <= num <= 9,
                start.wf(),
                self.wf(),
                self@ == start.clear_lines(kind, num, i as int),
                changed == !start.same_cells(self@),
            decreases 9 - i,
        {
            let ghost before = self@;
            proof {
                start.lemma_clear_lines(kind, num, i as int);
                before.lemma_clear_line(kind, i as int, num);
                start.lemma_changed_chain(before, before.clear_line(kind, i as int, num));
            }
            let step = self.line_search(kind, i, num);
            changed = changed || step;
            i += 1;
        }
        changed
    }

    /// Applies line uniqueness for digit `num` to every row, then every
    /// column, then every block. Returns whether a cell changed.
    pub fn one_line_search(&mut self, num: usize) -> (changed: bool)
        requires
            old(self).wf(),
            1 <= num <= 9,
        ensures
            final(self)@ == old(self)@.clear_all_lines(num),
            changed == !old(self)@.same_cells(final(self)@),
            final(self).wf(),
    {
        let ghost a = self@;
        let rows = self.lines_search(Line::Row, num);
        let ghost b = self@;
        let cols = self.lines_search(Line::Column, num);
        let ghost c = self@;
        let blocks = self.lines_search(Line::Block, num);
        proof {
            a.lemma_clear_lines(Line::Row, num, 9);
            b.lemma_clear_lines(Line::Column, num, 9);
            c.lemma_clear_lines(Line::Block, num, 9);
            a.lemma_changed_chain(b, c);
            a.lemma_changed_chain(c, self@);
        }
        rows || cols || blocks
    }

    /// Applies line uniqueness to the nine lines of one kind, as
    /// `lines_search` does; the lines are read in parallel, and cleared one
    /// after the other. No line of a kind shares a cell with another, so
    /// what is read of a line stays true while the lines before it are cleared.
    pub fn par_lines_search(&mut self, kind: Line, num: usize) -> (changed: bool)
        requires
            old(self).wf(),
            1 <= num <= 9,
        ensures
            final(self)@ == old(self)@.clear_lines(kind, num, 9),
            changed == !old(self)@.same_cells(final(self)@),
            final(self).wf(),
    {
        let ghost start = self@;
        let mut lines: Vec<usize> = Vec::new();
        let mut i: usize = 0;
        while i < 9
            invariant
                i <= 9,
                lines@.len() == i,
                forall|j: int| 0 <= j < i ==> #[trigger] lines@[j] == j,
            decreases 9 - i,
        {
            lines.push(i);
            i += 1;
        }
        let board = &*self;
        let read = |i: &usize| -> (plan: Option<usize>)
            requires
                *i < 9,
            ensures
                match plan {
                    Some(found) => board@.line_ready(kind, *i as int, num) && board@.pinned_at(
                        kind,
                        *i as int,
                        num,
                        found as int,
                    ),
                    None => !board@.line_ready(kind, *i as int, num),
                },
            { board.line_plan(kind, *i, num) };
        let plans = par_map(&lines, read);
        assert(board@ == start);
        let mut changed = false;
        let mut i: usize = 0;
        proof {
            start.lemma_narrows_refl();
        }
        while i < 9
            invariant
                i <= 9,
                1 <= num <= 9,
                start.wf(),
                self.wf(),
                plans@.len() == 9,
                forall|j: int|
                    0 <= j < 9 ==> match #[trigger] plans@[j] {
                        Some(found) => start.line_ready(kind, j, num) && start.pinned_at(
                            kind,
                            j,
                            num,
                            found as int,
                        ),
                        None => !start.line_ready(kind, j, num),
                    },
                self@ == start.clear_lines(kind, num, i as int),
                changed == !start.same_cells(self@),
            decreases 9 - i,
        {
            let ghost before = self@;
            proof {
                start.lemma_clear_lines(kind, num, i as int);
                start.lemma_clear_lines_frame(kind, num, i as int, i as int);
                before.lemma_clear_line(kind, i as int, num);
                start.lemma_changed_chain(before, before.clear_line(kind, i as int, num));
            }
            match plans[i] {
                Some(found) => {
                    let step = self.apply_line(kind, i, num, found);
                    changed = changed || step;
                },
                None => {},
            }
            i += 1;
        }
        changed
    }

    /// Applies line uniqueness for digit `num` to every row, then every
    /// column, then every block, as `one_line_search` does; the lines of a
    /// kind are read in parallel.
    pub fn par_one_line_search(&mut self, num: usize) -> (changed: bool)
        requires
            old(self).wf(),
            1 <= num <= 9,
        ensures
            final(self)@ == old(self)@.clear_all_lines(num),
            changed == !old(self)@.same_cells(final(self)@),
            final(self).wf(),
    {
        let ghost a = self@;
        let rows = self.par_lines_search(Line::Row, num);
        let ghost b = self@;
        let cols = self.par_lines_search(Line::Column, num);
        let ghost c = self@;
        let blocks = self.par_lines_search(Line::Block, num);
        proof {
            a.lemma_clear_lines(Line::Row, num, 9);
            b.lemma_clear_lines(Line::Column, num, 9);
            c.lemma_clear_lines(Line::Block, num, 9);
            a.lemma_changed_chain(b, c);
            a.lemma_changed_chain(c, self@);
        }
        rows || cols || blocks
    }
}

} // verus!
