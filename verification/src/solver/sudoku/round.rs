//! One round of propagation: the three deduction rules for each digit, then
//! a sweep that settles every cell left with a single candidate.
use super::board::SudokuSolver;
use super::grid::{block_of, inside, lemma_cell_settle, Board, Cell};
use vstd::prelude::*;

verus! {

/// The cells that share a row, a column or a block with the cell at
/// (`x`, `y`), as far as they stand before the `upto`-th cell of the grid,
/// counted row by row.
pub open spec fn peers(x: int, y: int, upto: int) -> spec_fn(int, int) -> bool {
    |r: int, c: int| (r == x || c == y || block_of(r, c) == block_of(x, y)) && r * 9 + c < upto
}

impl Board {
    /// The board after the three deduction rules are applied for digit `d`:
    /// line uniqueness, then pointing lines, then naked subsets.
    pub open spec fn deduce(self, d: usize) -> Board {
        self.clear_all_lines(d).point_blocks(d, 9).subsets(d, 9)
    }

    /// The board after the rules are applied for the digits 1 to `n`, in order.
    pub open spec fn deduce_upto(self, n: int) -> Board
        decreases n,
    {
        if n <= 0 {
            self
        } else {
            self.deduce_upto(n - 1).deduce(n as usize)
        }
    }

    /// The board after the cell at (`r`, `c`) is confirmed: where it has a
    /// single candidate, it is settled on it and the digit is struck from its
    /// row, its column and its block.
    pub open spec fn confirm_at(self, r: int, c: int) -> Board {
        match self.at(r, c).single() {
            Some(d) => self.put(r, c, Cell::Fixed(d)).erase(set![d], peers(r, c, 81)),
            None => self,
        }
    }

    /// The board after the first `n` cells, counted row by row, are confirmed in turn.
    pub open spec fn sweep(self, n: int) -> Board
        decreases n,
    {
        if n <= 0 {
            self
        } else {
            self.sweep(n - 1).confirm_at((n - 1) / 9, (n - 1) % 9)
        }
    }

    /// The board after one round of propagation.
    pub open spec fn round(self) -> Board {
        self.deduce_upto(9).sweep(81)
    }

    /// The rules for one digit keep the board well formed and narrow it.
    pub proof fn lemma_deduce(self, d: usize)
        requires
            self.wf(),
            1 <= d <= 9,
        ensures
            self.deduce(d).wf(),
            self.narrows_to(self.deduce(d)),
    {
        let a = self.clear_all_lines(d);
        let b = a.point_blocks(d, 9);
        let c = b.subsets(d, 9);
        self.lemma_clear_all_lines(d);
        a.lemma_point_blocks(d, 9);
        b.lemma_subsets(d, 9);
        self.lemma_narrows_trans(a, b);
        self.lemma_narrows_trans(b, c);
    }

    /// The rules for the digits 1 to `n` keep the board well formed and narrow it.
    pub proof fn lemma_deduce_upto(self, n: int)
        requires
            self.wf(),
            0 <= n <= 9,
        ensures
            self.deduce_upto(n).wf(),
            self.narrows_to(self.deduce_upto(n)),
        decreases n,
    {
        if n <= 0 {
            self.lemma_narrows_refl();
        } else {
            self.lemma_deduce_upto(n - 1);
            let p = self.deduce_upto(n - 1);
            p.lemma_deduce(n as usize);
            self.lemma_narrows_trans(p, p.deduce(n as usize));
        }
    }

    /// Confirming a cell keeps the board well formed and narrows it; a cell
    /// changes exactly when the confirmed cell had a single candidate.
    pub proof fn lemma_confirm_at(self, r: int, c: int)
        requires
            self.wf(),
            inside(r, c),
        ensures
            self.confirm_at(r, c).wf(),
            self.narrows_to(self.confirm_at(r, c)),
            self.same_cells(self.confirm_at(r, c)) <==> self.at(r, c).single() is None,
    {
        match self.at(r, c).single() {
            Some(d) => {
                lemma_cell_settle(self.at(r, c));
                self.lemma_put(r, c, Cell::Fixed(d));
                let p = self.put(r, c, Cell::Fixed(d));
                p.lemma_erase(set![d], peers(r, c, 81));
                let q = p.erase(set![d], peers(r, c, 81));
                self.lemma_narrows_trans(p, q);
                assert(self.at(r, c) != q.at(r, c));
            },
            None => {
                self.lemma_narrows_refl();
            },
        }
    }

    /// The sweep keeps the board well formed and narrows it.
    pub proof fn lemma_sweep(self, n: int)
        requires
            self.wf(),
            0 <= n <= 81,
        ensures
            self.sweep(n).wf(),
            self.narrows_to(self.sweep(n)),
        decreases n,
    {
        if n <= 0 {
            self.lemma_narrows_refl();
        } else {
            self.lemma_sweep(n - 1);
            let p = self.sweep(n - 1);
            p.lemma_confirm_at((n - 1) / 9, (n - 1) % 9);
            self.lemma_narrows_trans(p, p.confirm_at((n - 1) / 9, (n - 1) % 9));
        }
    }

    /// A round keeps the board well formed and narrows it.
    pub proof fn lemma_round(self)
        requires
            self.wf(),
        ensures
            self.round().wf(),
            self.narrows_to(self.round()),
    {
        self.lemma_deduce_upto(9);
        let p = self.deduce_upto(9);
        p.lemma_sweep(81);
        self.lemma_narrows_trans(p, p.sweep(81));
    }
}

impl SudokuSolver {
    /// Strikes `val` from the candidates of every cell in the row, the
    /// column and the block of the cell at (`x`, `y`).
    pub fn remove_suggest(&mut self, x: usize, y: usize, val: usize)
        requires
            old(self).wf(),
            x < 9,
            y < 9,
        ensures
            final(self)@ == old(self)@.erase(set![val], peers(x as int, y as int, 81)),
            final(self).wf(),
    {
        let ghost start = self@;
        let ghost ds = set![val];
        let mut n: usize = 0;
        proof {
            start.lemma_erase_nothing(ds, peers(x as int, y as int, 0));
        }
        while n < 81
            invariant
                n <= 81,
                x < 9,
                y < 9,
                ds == set![val],
                start.wf(),
                self.wf(),
                self@ == start.erase(ds, peers(x as int, y as int, n as int)),
            decreases 81 - n,
        {
            let r = n / 9;
            let c = n % 9;
            let ghost region = peers(x as int, y as int, n as int);
            let ghost wider = peers(x as int, y as int, n + 1);
            if r == x || c == y || (r / 3) * 3 + c / 3 == (x / 3) * 3 + y / 3 {
                proof {
                    assert forall|p: int, q: int| inside(p, q) implies (#[trigger] wider(p, q)
                        <==> region(p, q) || (p == r && q == c)) by {}
                    start.lemma_erase_grow(ds, region, wider, r as int, c as int);
                }
                self.strike_at(r, c, val);
            } else {
                proof {
                    assert forall|p: int, q: int| inside(p, q) implies (#[trigger] wider(p, q)
                        <==> region(p, q)) by {}
                    start.lemma_erase_same(ds, region, wider);
                }
            }
            n += 1;
        }
    }

    /// Settles the cell at (`x`, `y`) where it has a single candidate, and
    /// returns the digit; returns 0 and changes nothing otherwise.
    pub fn settle_at(&mut self, x: usize, y: usize) -> (val: usize)
        requires
            old(self).wf(),
            x < 9,
            y < 9,
        ensures
            final(self)@ == old(self)@.put(x as int, y as int, old(self)@.at(x as int, y as int).settle()),
            val == match old(self)@.at(x as int, y as int).single() {
                Some(d) => d,
                None => 0,
            },
            old(self)@.at(x as int, y as int).single() is None ==> final(self)@ == old(self)@,
            val != 0 <==> old(self)@.at(x as int, y as int).single() is Some,
            final(self).wf(),
    {
        let ghost start = self@;
        let ghost cell = start.at(x as int, y as int);
        assert(cell.valid());
        let val = self.field[x][y].suggest_confirmed();
        proof {
            lemma_cell_settle(cell);
            start.lemma_put(x as int, y as int, cell.settle());
            assert(self@.cells =~~= start.put(x as int, y as int, cell.settle()).cells);
            assert(self@.rows =~~= start.rows);
            assert(self@.cols =~~= start.cols);
            assert(self@.blocks =~~= start.blocks);
            if cell.single() is None {
                assert(start.put(x as int, y as int, cell).cells =~~= start.cells);
            }
        }
        val
    }

    /// Confirms every cell in turn, row by row: a cell with a single
    /// candidate is settled and its digit struck from its peers. Returns
    /// whether a cell changed.
    pub fn confirm_all(&mut self) -> (changed: bool)
        requires
            old(self).wf(),
        ensures
            final(self)@ == old(self)@.sweep(81),
            changed == !old(self)@.same_cells(final(self)@),
            final(self).wf(),
    {
        let ghost start = self@;
        let mut changed = false;
        let mut n: usize = 0;
        proof {
            start.lemma_narrows_refl();
        }
        while n < 81
            invariant
                n <= 81,
                start.wf(),
                self.wf(),
                self@ == start.sweep(n as int),
                changed == !start.same_cells(self@),
            decreases 81 - n,
        {
            let x = n / 9;
            let y = n % 9;
            let ghost before = self@;
            proof {
                start.lemma_sweep(n as int);
                before.lemma_confirm_at(x as int, y as int);
                start.lemma_changed_chain(before, before.confirm_at(x as int, y as int));
            }
            let is_done = self.settle_at(x, y);
            if is_done != 0 {
                self.remove_suggest(x, y, is_done);
                changed = true;
            }
            n += 1;
        }
        changed
    }

    /// One round of propagation: for each digit from 1 to 9 the three
    /// deduction rules, then the confirming sweep. Returns whether a cell
    /// changed.
    pub fn num_search(&mut self) -> (changed: bool)
        requires
            old(self).wf(),
        ensures
            final(self)@ == old(self)@.round(),
            changed == !old(self)@.same_cells(final(self)@),
            final(self).wf(),
    {
        let ghost start = self@;
        let mut changed = false;
        let mut x: usize = 1;
        proof {
            start.lemma_narrows_refl();
        }
        while x <= 9
            invariant
                1 <= x <= 10,
                start.wf(),
                self.wf(),
                self@ == start.deduce_upto(x - 1),
                changed == !start.same_cells(self@),
            decreases 10 - x,
        {
            let ghost p = self@;
            let lines = self.one_line_search(x);
            let ghost a = self@;
            let pointing = self.line_confirmed(x);
            let ghost b = self@;
            let subsets = self.pseudo_confirmed(x);
            proof {
                start.lemma_deduce_upto(x - 1);
                p.lemma_clear_all_lines(x);
                a.lemma_point_blocks(x, 9);
                b.lemma_subsets(x, 9);
                p.lemma_changed_chain(a, b);
                p.lemma_changed_chain(b, self@);
                start.lemma_changed_chain(p, self@);
            }
            changed = changed || lines || pointing || subsets;
            x += 1;
        }
        let ghost mid = self@;
        let swept = self.confirm_all();
        proof {
            start.lemma_deduce_upto(9);
            mid.lemma_sweep(81);
            start.lemma_changed_chain(mid, self@);
        }
        changed || swept
    }
}

} // verus!
