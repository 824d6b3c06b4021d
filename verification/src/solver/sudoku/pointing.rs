//! Pointing lines: where the open cells of a block that offer a digit all
//! stand in one row (or one column), the digit belongs to that row inside the
//! block and is struck from the rest of the row.
use super::board::SudokuSolver;
use super::grid::{block_of, inside, Board};
use vstd::prelude::*;

verus! {

/// A cell of block `blk` lies in the block's three rows and three columns.
pub proof fn lemma_block_span(blk: int, r: int, c: int)
    requires
        0 <= blk < 9,
        inside(r, c),
    ensures
        block_of(r, c) == blk <==> r / 3 == blk / 3 && c / 3 == blk % 3,
{
    let a = r / 3;
    let b = c / 3;
    assert(0 <= a < 3 && 0 <= b < 3);
    assert((a * 3 + b) / 3 == a && (a * 3 + b) % 3 == b);
}

impl Board {
    /// Some open cell of block `blk` in row `r` offers `d`.
    pub open spec fn row_offers(self, blk: int, d: usize, r: int) -> bool {
        exists|c: int| 0 <= c < 9 && block_of(r, c) == blk && (#[trigger] self.at(r, c)).offers(d)
    }

    /// Some open cell of block `blk` in column `c` offers `d`.
    pub open spec fn col_offers(self, blk: int, d: usize, c: int) -> bool {
        exists|r: int| 0 <= r < 9 && block_of(r, c) == blk && (#[trigger] self.at(r, c)).offers(d)
    }

    /// Inside block `blk`, digit `d` is offered in row `r` and in no other row.
    pub open spec fn row_confined(self, blk: int, d: usize, r: int) -> bool {
        &&& 0 <= r < 9
        &&& self.row_offers(blk, d, r)
        &&& forall|q: int| 0 <= q < 9 && q != r ==> !#[trigger] self.row_offers(blk, d, q)
    }

    /// Inside block `blk`, digit `d` is offered in column `c` and in no other column.
    pub open spec fn col_confined(self, blk: int, d: usize, c: int) -> bool {
        &&& 0 <= c < 9
        &&& self.col_offers(blk, d, c)
        &&& forall|q: int| 0 <= q < 9 && q != c ==> !#[trigger] self.col_offers(blk, d, q)
    }

    /// The cells outside block `blk` from which the block's confinement of
    /// `d` strikes it: those of the confining row that stand before column
    /// `row_upto`, and those of the confining column before row `col_upto`.
    pub open spec fn pointed(self, blk: int, d: usize, row_upto: int, col_upto: int) -> spec_fn(
        int,
        int,
    ) -> bool {
        |r: int, c: int|
            block_of(r, c) != blk && ((self.row_confined(blk, d, r) && c < row_upto) || (
            self.col_confined(blk, d, c) && r < col_upto))
    }

    /// The board after the pointing rule is applied to block `blk` for digit `d`.
    pub open spec fn point_block(self, blk: int, d: usize) -> Board {
        self.erase(set![d], self.pointed(blk, d, 9, 9))
    }

    /// The board after the pointing rule is applied to the first `n` blocks, in order.
    pub open spec fn point_blocks(self, d: usize, n: int) -> Board
        decreases n,
    {
        if n <= 0 {
            self
        } else {
            self.point_blocks(d, n - 1).point_block(n - 1, d)
        }
    }

    /// The pointing rule keeps the board well formed and narrows it.
    pub proof fn lemma_point_blocks(self, d: usize, n: int)
        requires
            self.wf(),
            0 <= n <= 9,
        ensures
            self.point_blocks(d, n).wf(),
            self.narrows_to(self.point_blocks(d, n)),
        decreases n,
    {
        if n <= 0 {
            self.lemma_narrows_refl();
        } else {
            self.lemma_point_blocks(d, n - 1);
            let p = self.point_blocks(d, n - 1);
            p.lemma_erase(set![d], p.pointed(n - 1, d, 9, 9));
            self.lemma_narrows_trans(p, p.point_block(n - 1, d));
        }
    }
}

impl SudokuSolver {
    /// Whether some open cell of block `blk` in row `r` offers `d`.
    fn block_row_offers(&self, blk: usize, r: usize, d: usize) -> (b: bool)
        requires
            self.wf(),
            blk < 9,
            r < 9,
            r / 3 == blk / 3,
        ensures
            b == self@.row_offers(blk as int, d, r as int),
    {
        let left = (blk % 3) * 3;
        let mut found = false;
        let mut j: usize = 0;
        while j < 3
            invariant
                j <= 3,
                blk < 9,
                r < 9,
                r / 3 == blk / 3,
                left == (blk % 3) * 3,
                self.wf(),
                found <==> exists|c: int|
                    left <= c < left + j && (#[trigger] self@.at(r as int, c)).offers(d),
            decreases 3 - j,
        {
            if self.field[r][left + j].offers(d) {
                assert(self@.at(r as int, (left + j) as int).offers(d));
                found = true;
            }
            j += 1;
        }
        proof {
            if found {
                let c = choose|c: int|
                    left <= c < left + 3 && (#[trigger] self@.at(r as int, c)).offers(d);
                lemma_block_span(blk as int, r as int, c);
            }
            if self@.row_offers(blk as int, d, r as int) {
                let c = choose|c: int|
                    0 <= c < 9 && block_of(r as int, c) == blk && (#[trigger] self@.at(
                        r as int,
                        c,
                    )).offers(d);
                lemma_block_span(blk as int, r as int, c);
                assert(left <= c < left + 3);
            }
        }
        found
    }

    /// Whether some open cell of block `blk` in column `c` offers `d`.
    fn block_col_offers(&self, blk: usize, c: usize, d: usize) -> (b: bool)
        requires
            self.wf(),
            blk < 9,
            c < 9,
            c / 3 == blk % 3,
        ensures
            b == self@.col_offers(blk as int, d, c as int),
    {
        let top = (blk / 3) * 3;
        let mut found = false;
        let mut j: usize = 0;
        while j < 3
            invariant
                j <= 3,
                blk < 9,
                c < 9,
                c / 3 == blk % 3,
                top == (blk / 3) * 3,
                self.wf(),
                found <==> exists|r: int|
                    top <= r < top + j && (#[trigger] self@.at(r, c as int)).offers(d),
            decreases 3 - j,
        {
            if self.field[top + j][c].offers(d) {
                assert(self@.at((top + j) as int, c as int).offers(d));
                found = true;
            }
            j += 1;
        }
        proof {
            if found {
                let r = choose|r: int|
                    top <= r < top + 3 && (#[trigger] self@.at(r, c as int)).offers(d);
                lemma_block_span(blk as int, r, c as int);
            }
            if self@.col_offers(blk as int, d, c as int) {
                let r = choose|r: int|
                    0 <= r < 9 && block_of(r, c as int) == blk && (#[trigger] self@.at(
                        r,
                        c as int,
                    )).offers(d);
                lemma_block_span(blk as int, r, c as int);
                assert(top <= r < top + 3);
            }
        }
        found
    }

    /// The row to which block `blk` confines digit `d`, if there is one.
    fn confining_row(&self, blk: usize, d: usize) -> (row: Option<usize>)
        requires
            self.wf(),
            blk < 9,
        ensures
            match row {
                Some(r) => r < 9 && r / 3 == blk / 3 && self@.row_confined(blk as int, d, r as int),
                None => forall|r: int| !self@.row_confined(blk as int, d, r),
            },
    {
        let top = (blk / 3) * 3;
        let a = self.block_row_offers(blk, top, d);
        let b = self.block_row_offers(blk, top + 1, d);
        let c = self.block_row_offers(blk, top + 2, d);
        proof {
            assert forall|q: int| 0 <= q < 9 && !(top <= q < top + 3) implies !#[trigger] self@.row_offers(
                blk as int,
                d,
                q,
            ) by {
                if self@.row_offers(blk as int, d, q) {
                    let x = choose|x: int|
                        0 <= x < 9 && block_of(q, x) == blk && (#[trigger] self@.at(q, x)).offers(d);
                    lemma_block_span(blk as int, q, x);
                }
            }
        }
        if a && !b && !c {
            Some(top)
        } else if b && !a && !c {
            Some(top + 1)
        } else if c && !a && !b {
            Some(top + 2)
        } else {
            proof {
                assert forall|r: int| !self@.row_confined(blk as int, d, r) by {
                    if self@.row_confined(blk as int, d, r) {
                        if r != top {
                            assert(!self@.row_offers(blk as int, d, top as int));
                        }
                        if r != top + 1 {
                            assert(!self@.row_offers(blk as int, d, top + 1));
                        }
                        if r != top + 2 {
                            assert(!self@.row_offers(blk as int, d, top + 2));
                        }
                    }
                }
            }
            None
        }
    }

    /// The column to which block `blk` confines digit `d`, if there is one.
    fn confining_col(&self, blk: usize, d: usize) -> (col: Option<usize>)
        requires
            self.wf(),
            blk < 9,
        ensures
            match col {
                Some(c) => c < 9 && c / 3 == blk % 3 && self@.col_confined(blk as int, d, c as int),
                None => forall|c: int| !self@.col_confined(blk as int, d, c),
            },
    {
        let left = (blk % 3) * 3;
        let a = self.block_col_offers(blk, left, d);
        let b = self.block_col_offers(blk, left + 1, d);
        let c = self.block_col_offers(blk, left + 2, d);
        proof {
            assert forall|q: int| 0 <= q < 9 && !(left <= q < left + 3) implies !#[trigger] self@.col_offers(
                blk as int,
                d,
                q,
            ) by {
                if self@.col_offers(blk as int, d, q) {
                    let x = choose|x: int|
                        0 <= x < 9 && block_of(x, q) == blk && (#[trigger] self@.at(x, q)).offers(d);
                    lemma_block_span(blk as int, x, q);
                }
            }
        }
        if a && !b && !c {
            Some(left)
        } else if b && !a && !c {
            Some(left + 1)
        } else if c && !a && !b {
            Some(left + 2)
        } else {
            proof {
                assert forall|q: int| !self@.col_confined(blk as int, d, q) by {
                    if self@.col_confined(blk as int, d, q) {
                        if q != left {
                            assert(!self@.col_offers(blk as int, d, left as int));
                        }
                        if q != left + 1 {
                            assert(!self@.col_offers(blk as int, d, left + 1));
                        }
                        if q != left + 2 {
                            assert(!self@.col_offers(blk as int, d, left + 2));
                        }
                    }
                }
            }
            None
        }
    }

    /// Applies the pointing rule to block `blk` for digit `num`. Returns
    /// whether a cell changed.
    pub fn block_line_confirmed(&mut self, blk: usize, num: usize) -> (changed: bool)
        requires
            old(self).wf(),
            blk < 9,
        ensures
            final(self)@ == old(self)@.point_block(blk as int, num),
            changed == !old(self)@.same_cells(final(self)@),
            final(self).wf(),
    {
        let ghost start = self@;
        let ghost ds = set![num];
        let row = self.confining_row(blk, num);
        let col = self.confining_col(blk, num);
        let mut changed = false;
        proof {
            start.lemma_erase_nothing(ds, start.pointed(blk as int, num, 0, 0));
        }
        match row {
            Some(r) => {
                let mut c: usize = 0;
                while c < 9
                    invariant
                        c <= 9,
                        r < 9,
                        blk < 9,
                        r / 3 == blk / 3,
                        ds == set![num],
                        start.wf(),
                        start.row_confined(blk as int, num, r as int),
                        self.wf(),
                        self@ == start.erase(ds, start.pointed(blk as int, num, c as int, 0)),
                        changed == start.hit(ds, start.pointed(blk as int, num, c as int, 0)),
                    decreases 9 - c,
                {
                    let ghost region = start.pointed(blk as int, num, c as int, 0);
                    let ghost wider = start.pointed(blk as int, num, c + 1, 0);
                    proof {
                        lemma_block_span(blk as int, r as int, c as int);
                        assert forall|x: int, y: int| inside(x, y) implies (#[trigger] wider(x, y)
                            <==> region(x, y) || (x == r && y == c && c / 3 != blk % 3)) by {
                            if start.row_confined(blk as int, num, x) && x != r {
                                assert(!start.row_offers(blk as int, num, x));
                            }
                        }
                    }
                    if c / 3 != blk % 3 {
                        proof {
                            start.lemma_erase_grow(ds, region, wider, r as int, c as int);
                        }
                        let hit = self.strike_at(r, c, num);
                        changed = changed || hit;
                    } else {
                        proof {
                            start.lemma_erase_same(ds, region, wider);
                        }
                    }
                    c += 1;
                }
            },
            None => {
                proof {
                    start.lemma_erase_same(
                        ds,
                        start.pointed(blk as int, num, 0, 0),
                        start.pointed(blk as int, num, 9, 0),
                    );
                }
            },
        }
        match col {
            Some(c) => {
                let mut r: usize = 0;
                while r < 9
                    invariant
                        r <= 9,
                        c < 9,
                        blk < 9,
                        c / 3 == blk % 3,
                        ds == set![num],
                        start.wf(),
                        start.col_confined(blk as int, num, c as int),
                        self.wf(),
                        self@ == start.erase(ds, start.pointed(blk as int, num, 9, r as int)),
                        changed == start.hit(ds, start.pointed(blk as int, num, 9, r as int)),
                    decreases 9 - r,
                {
                    let ghost region = start.pointed(blk as int, num, 9, r as int);
                    let ghost wider = start.pointed(blk as int, num, 9, r + 1);
                    proof {
                        lemma_block_span(blk as int, r as int, c as int);
                        assert forall|x: int, y: int| inside(x, y) implies (#[trigger] wider(x, y)
                            <==> region(x, y) || (x == r && y == c && r / 3 != blk / 3)) by {
                            if start.col_confined(blk as int, num, y) && y != c {
                                assert(!start.col_offers(blk as int, num, y));
                            }
                        }
                    }
                    if r / 3 != blk / 3 {
                        proof {
                            lemma_block_span(blk as int, r as int, c as int);
                            if start.row_confined(blk as int, num, r as int) {
                                let y = choose|y: int|
                                    0 <= y < 9 && block_of(r as int, y) == blk && (
                                    #[trigger] start.at(r as int, y)).offers(num);
                                lemma_block_span(blk as int, r as int, y);
                            }
                            start.lemma_erase_grow(ds, region, wider, r as int, c as int);
                        }
                        let hit = self.strike_at(r, c, num);
                        changed = changed || hit;
                    } else {
                        proof {
                            start.lemma_erase_same(ds, region, wider);
                        }
                    }
                    r += 1;
                }
            },
            None => {
                proof {
                    start.lemma_erase_same(
                        ds,
                        start.pointed(blk as int, num, 9, 0),
                        start.pointed(blk as int, num, 9, 9),
                    );
                }
            },
        }
        proof {
            start.lemma_erase(ds, start.pointed(blk as int, num, 9, 9));
        }
        changed
    }

    /// Applies the pointing rule for digit `num` to the nine blocks, in
    /// order. Returns whether a cell changed.
    pub fn line_confirmed(&mut self, num: usize) -> (changed: bool)
        requires
            old(self).wf(),
        ensures
            final(self)@ == old(self)@.point_blocks(num, 9),
            changed == !old(self)@.same_cells(final(self)@),
            final(self).wf(),
    {
        let ghost start = self@;
        let mut changed = false;
        let mut blk: usize = 0;
        proof {
            start.lemma_narrows_refl();
        }
        while blk < 9
            invariant
                blk <= 9,
                start.wf(),
                self.wf(),
                self@ == start.point_blocks(num, blk as int),
                changed == !start.same_cells(self@),
            decreases 9 - blk,
        {
            let ghost before = self@;
            proof {
                start.lemma_point_blocks(num, blk as int);
                before.lemma_erase(set![num], before.pointed(blk as int, num, 9, 9));
                start.lemma_changed_chain(before, before.point_block(blk as int, num));
            }
            let step = self.block_line_confirmed(blk, num);
            changed = changed || step;
            blk += 1;
        }
        changed
    }
}

} // verus!
