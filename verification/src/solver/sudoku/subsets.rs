//! Naked subsets: where two (or three) cells of a block together offer
//! exactly two (or three) digits, those digits belong to those cells and are
//! struck from the other cells under consideration.
use super::board::{position, SudokuSolver};
use super::grid::{cell_of, inside, lemma_line_geometry, lies_on, place_on, Board, Cell, Line};
use std::collections::BTreeSet;
use vstd::prelude::*;

verus! {

/// The cells of block `blk` at the places `hs[0..upto]`, but for the chosen places.
pub open spec fn others(blk: int, hs: Seq<usize>, chosen: Set<usize>, upto: int) -> spec_fn(
    int,
    int,
) -> bool {
    |r: int, c: int|
        lies_on(Line::Block, blk, r, c) && exists|n: int|
            0 <= n < upto && n < hs.len() && #[trigger] hs[n] == place_on(Line::Block, r, c)
                && !chosen.contains(hs[n])
}

/// Places on a line, in strictly ascending order.
pub open spec fn ascending(hs: Seq<usize>) -> bool {
    &&& forall|n: int| 0 <= n < hs.len() ==> #[trigger] hs[n] < 9
    &&& forall|m: int, n: int| 0 <= m < n < hs.len() ==> #[trigger] hs[m] < #[trigger] hs[n]
}

impl Board {
    /// Some cell of block `blk` is settled as `d`.
    pub open spec fn block_settled(self, blk: int, d: usize) -> bool {
        exists|k: int| 0 <= k < 9 && #[trigger] self.on(Line::Block, blk, k) == Cell::Fixed(d)
    }

    /// The places before `upto` in block `blk` whose cells offer `d`, in order.
    pub open spec fn holders(self, blk: int, d: usize, upto: int) -> Seq<usize>
        decreases upto,
    {
        if upto <= 0 {
            Seq::empty()
        } else if self.on(Line::Block, blk, upto - 1).offers(d) {
            self.holders(blk, d, upto - 1).push((upto - 1) as usize)
        } else {
            self.holders(blk, d, upto - 1)
        }
    }

    /// Every digit that one of the chosen places of block `blk` offers.
    pub open spec fn pool(self, blk: int, chosen: Set<usize>) -> Set<usize> {
        Set::new(
            |d: usize|
                exists|k: usize|
                    chosen.contains(k) && k < 9 && (#[trigger] self.on(Line::Block, blk, k as int)).offers(
                        d,
                    ),
        )
    }

    /// One step of the rule: where the chosen places together offer exactly
    /// `size` digits, those digits are struck from the other places of `hs`.
    pub open spec fn subset_step(self, blk: int, hs: Seq<usize>, chosen: Set<usize>, size: nat) -> Board {
        let ds = self.pool(blk, chosen);
        if ds.len() == size {
            self.erase(ds, others(blk, hs, chosen, hs.len() as int))
        } else {
            self
        }
    }

    /// The board after the step was taken for every pair of places of `hs`
    /// whose later member stands before index `j`, and for the pairs of
    /// `hs[j]` with the places before index `i`: pairs come in the order of
    /// their later member, then of their earlier one.
    pub open spec fn pairs(self, blk: int, hs: Seq<usize>, j: int, i: int) -> Board
        decreases j, i,
    {
        if j <= 0 {
            self
        } else if i <= 0 {
            self.pairs(blk, hs, j - 1, j - 1)
        } else {
            self.pairs(blk, hs, j, i - 1).subset_step(blk, hs, set![hs[i - 1], hs[j]], 2)
        }
    }

    /// The board after the step was taken for every triple of places of `hs`
    /// in the order of their last member, then their middle one, then their
    /// first: all those whose last member stands before index `c`, those of
    /// `hs[c]` with a middle member before index `b`, and those of `hs[c]`
    /// and `hs[b]` with a first member before index `a`.
    pub open spec fn triples(self, blk: int, hs: Seq<usize>, c: int, b: int, a: int) -> Board
        decreases c, b, a,
    {
        if c <= 0 {
            self
        } else if b <= 0 {
            self.triples(blk, hs, c - 1, c - 1, 0)
        } else if a <= 0 {
            self.triples(blk, hs, c, b - 1, b - 1)
        } else {
            self.triples(blk, hs, c, b, a - 1).subset_step(
                blk,
                hs,
                set![hs[a - 1], hs[b], hs[c]],
                3,
            )
        }
    }

    /// The board after the naked-subset rule is applied to block `blk` for
    /// digit `d`: nothing where the block already has `d` settled; else every
    /// pair, then every triple, of the cells that offer `d` takes its step.
    pub open spec fn subsets_block(self, blk: int, d: usize) -> Board {
        if self.block_settled(blk, d) {
            self
        } else {
            let hs = self.holders(blk, d, 9);
            self.pairs(blk, hs, hs.len() as int, 0).triples(blk, hs, hs.len() as int, 0, 0)
        }
    }

    /// The board after the rule is applied to the first `n` blocks, in order.
    pub open spec fn subsets(self, d: usize, n: int) -> Board
        decreases n,
    {
        if n <= 0 {
            self
        } else {
            self.subsets(d, n - 1).subsets_block(n - 1, d)
        }
    }

    /// The places that offer a digit come in ascending order.
    pub proof fn lemma_holders(self, blk: int, d: usize, upto: int)
        requires
            0 <= upto <= 9,
        ensures
            ascending(self.holders(blk, d, upto)),
            self.holders(blk, d, upto).len() <= upto,
            forall|n: int|
                0 <= n < self.holders(blk, d, upto).len() ==> #[trigger] self.holders(blk, d, upto)[n]
                    < upto,
        decreases upto,
    {
        if upto > 0 {
            self.lemma_holders(blk, d, upto - 1);
        }
    }

    /// A step keeps the board well formed and narrows it.
    pub proof fn lemma_subset_step(self, blk: int, hs: Seq<usize>, chosen: Set<usize>, size: nat)
        requires
            self.wf(),
        ensures
            self.subset_step(blk, hs, chosen, size).wf(),
            self.narrows_to(self.subset_step(blk, hs, chosen, size)),
    {
        self.lemma_narrows_refl();
        self.lemma_erase(self.pool(blk, chosen), others(blk, hs, chosen, hs.len() as int));
    }

    /// The steps over pairs keep the board well formed and narrow it.
    pub proof fn lemma_pairs(self, blk: int, hs: Seq<usize>, j: int, i: int)
        requires
            self.wf(),
        ensures
            self.pairs(blk, hs, j, i).wf(),
            self.narrows_to(self.pairs(blk, hs, j, i)),
        decreases j, i,
    {
        if j <= 0 {
            self.lemma_narrows_refl();
        } else if i <= 0 {
            self.lemma_pairs(blk, hs, j - 1, j - 1);
        } else {
            self.lemma_pairs(blk, hs, j, i - 1);
            let p = self.pairs(blk, hs, j, i - 1);
            p.lemma_subset_step(blk, hs, set![hs[i - 1], hs[j]], 2);
            self.lemma_narrows_trans(p, p.subset_step(blk, hs, set![hs[i - 1], hs[j]], 2));
        }
    }

    /// The steps over triples keep the board well formed and narrow it.
    pub proof fn lemma_triples(self, blk: int, hs: Seq<usize>, c: int, b: int, a: int)
        requires
            self.wf(),
        ensures
            self.triples(blk, hs, c, b, a).wf(),
            self.narrows_to(self.triples(blk, hs, c, b, a)),
        decreases c, b, a,
    {
        if c <= 0 {
            self.lemma_narrows_refl();
        } else if b <= 0 {
            self.lemma_triples(blk, hs, c - 1, c - 1, 0);
        } else if a <= 0 {
            self.lemma_triples(blk, hs, c, b - 1, b - 1);
        } else {
            self.lemma_triples(blk, hs, c, b, a - 1);
            let p = self.triples(blk, hs, c, b, a - 1);
            let chosen = set![hs[a - 1], hs[b], hs[c]];
            p.lemma_subset_step(blk, hs, chosen, 3);
            self.lemma_narrows_trans(p, p.subset_step(blk, hs, chosen, 3));
        }
    }

    /// The rule on one block keeps the board well formed and narrows it.
    pub proof fn lemma_subsets_block(self, blk: int, d: usize)
        requires
            self.wf(),
        ensures
            self.subsets_block(blk, d).wf(),
            self.narrows_to(self.subsets_block(blk, d)),
    {
        if self.block_settled(blk, d) {
            self.lemma_narrows_refl();
        } else {
            let hs = self.holders(blk, d, 9);
            let n = hs.len() as int;
            self.lemma_pairs(blk, hs, n, 0);
            let p = self.pairs(blk, hs, n, 0);
            p.lemma_triples(blk, hs, n, 0, 0);
            self.lemma_narrows_trans(p, p.triples(blk, hs, n, 0, 0));
        }
    }

    /// The rule on the first `n` blocks keeps the board well formed and narrows it.
    pub proof fn lemma_subsets(self, d: usize, n: int)
        requires
            self.wf(),
        ensures
            self.subsets(d, n).wf(),
            self.narrows_to(self.subsets(d, n)),
        decreases n,
    {
        if n <= 0 {
            self.lemma_narrows_refl();
        } else {
            self.lemma_subsets(d, n - 1);
            let p = self.subsets(d, n - 1);
            p.lemma_subsets_block(n - 1, d);
            self.lemma_narrows_trans(p, p.subsets_block(n - 1, d));
        }
    }
}

impl SudokuSolver {
    /// The places of block `blk` whose cells offer `num`, in order; `None`
    /// where the block already has `num` settled.
    fn collect_holders(&self, blk: usize, num: usize) -> (hs: Option<Vec<usize>>)
        requires
            self.wf(),
            blk < 9,
        ensures
            match hs {
                None => self@.block_settled(blk as int, num),
                Some(v) => !self@.block_settled(blk as int, num) && v@ == self@.holders(
                    blk as int,
                    num,
                    9,
                ),
            },
    {
        let mut hs: Vec<usize> = Vec::new();
        let mut k: usize = 0;
        while k < 9
            invariant
                k <= 9,
                blk < 9,
                self.wf(),
                hs@ == self@.holders(blk as int, num, k as int),
                forall|j: int| 0 <= j < k ==> #[trigger] self@.on(Line::Block, blk as int, j) != Cell::Fixed(num),
            decreases 9 - k,
        {
            let (r, c) = position(Line::Block, blk, k);
            if self.field[r][c].holds(num) {
                assert(self@.on(Line::Block, blk as int, k as int) == Cell::Fixed(num));
                return None;
            }
            if self.field[r][c].offers(num) {
                hs.push(k);
            }
            k += 1;
        }
        Some(hs)
    }

    /// Every digit offered at one of the places `hs[a]`, `hs[b]`, `hs[c]` of block `blk`.
    fn gather(&self, blk: usize, hs: &Vec<usize>, a: usize, b: usize, c: usize) -> (pool: BTreeSet<usize>)
        requires
            self.wf(),
            blk < 9,
            ascending(hs@),
            a < hs.len(),
            b < hs.len(),
            c < hs.len(),
        ensures
            pool@ == self@.pool(blk as int, set![hs@[a as int], hs@[b as int], hs@[c as int]]),
            pool@.finite(),
    {
        let mut pool: BTreeSet<usize> = BTreeSet::new();
        let (ra, ca) = position(Line::Block, blk, hs[a]);
        self.field[ra][ca].pour_into(&mut pool);
        let (rb, cb) = position(Line::Block, blk, hs[b]);
        self.field[rb][cb].pour_into(&mut pool);
        let (rc, cc) = position(Line::Block, blk, hs[c]);
        self.field[rc][cc].pour_into(&mut pool);
        proof {
            let chosen = set![hs@[a as int], hs@[b as int], hs@[c as int]];
            let want = self@.pool(blk as int, chosen);
            let xa = self@.on(Line::Block, blk as int, hs@[a as int] as int);
            let xb = self@.on(Line::Block, blk as int, hs@[b as int] as int);
            let xc = self@.on(Line::Block, blk as int, hs@[c as int] as int);
            assert(pool@ == xa.candidates().union(xb.candidates()).union(xc.candidates())) by {
                assert(Set::<usize>::empty().union(xa.candidates()) =~= xa.candidates());
            }
            assert forall|d: usize| pool@.contains(d) == want.contains(d) by {
                if pool@.contains(d) {
                    if xa.offers(d) {
                        assert(chosen.contains(hs@[a as int]));
                    } else if xb.offers(d) {
                        assert(chosen.contains(hs@[b as int]));
                    } else {
                        assert(xc.offers(d));
                        assert(chosen.contains(hs@[c as int]));
                    }
                }
                if want.contains(d) {
                    let k = choose|k: usize|
                        chosen.contains(k) && k < 9 && (#[trigger] self@.on(
                            Line::Block,
                            blk as int,
                            k as int,
                        )).offers(d);
                    assert(k == hs@[a as int] || k == hs@[b as int] || k == hs@[c as int]);
                }
            }
            assert(pool@ =~= want);
        }
        pool
    }

    /// One step of the naked-subset rule, for the places `hs[a]`, `hs[b]`,
    /// `hs[c]` of block `blk` (a pair names one of them twice). Returns
    /// whether a cell changed.
    fn subset_step(
        &mut self,
        blk: usize,
        hs: &Vec<usize>,
        a: usize,
        b: usize,
        c: usize,
        size: usize,
    ) -> (changed: bool)
        requires
            old(self).wf(),
            blk < 9,
            ascending(hs@),
            a < hs.len(),
            b < hs.len(),
            c < hs.len(),
        ensures
            final(self)@ == old(self)@.subset_step(
                blk as int,
                hs@,
                set![hs@[a as int], hs@[b as int], hs@[c as int]],
                size as nat,
            ),
            changed == !old(self)@.same_cells(final(self)@),
            final(self).wf(),
    {
        let ghost start = self@;
        let ghost chosen = set![hs@[a as int], hs@[b as int], hs@[c as int]];
        let pool = self.gather(blk, hs, a, b, c);
        if pool.len() != size {
            proof {
                start.lemma_narrows_refl();
            }
            return false;
        }
        let ghost ds = pool@;
        let mut changed = false;
        let mut n: usize = 0;
        proof {
            start.lemma_erase_nothing(ds, others(blk as int, hs@, chosen, 0));
        }
        while n < hs.len()
            invariant
                n <= hs.len(),
                blk < 9,
                ascending(hs@),
                a < hs.len(),
                b < hs.len(),
                c < hs.len(),
                ds == pool@,
                chosen == set![hs@[a as int], hs@[b as int], hs@[c as int]],
                start.wf(),
                self.wf(),
                self@ == start.erase(ds, others(blk as int, hs@, chosen, n as int)),
                changed == start.hit(ds, others(blk as int, hs@, chosen, n as int)),
            decreases hs.len() - n,
        {
            let (r, col) = position(Line::Block, blk, hs[n]);
            let ghost region = others(blk as int, hs@, chosen, n as int);
            let ghost wider = others(blk as int, hs@, chosen, n + 1);
            proof {
                lemma_line_geometry(Line::Block, blk as int);
                assert(cell_of(Line::Block, blk as int, hs@[n as int] as int) == (r as int, col as int));
                assert forall|x: int, y: int| inside(x, y) implies (#[trigger] wider(x, y) <==> region(
                    x,
                    y,
                ) || (x == r && y == col && !chosen.contains(hs@[n as int]))) by {
                    if wider(x, y) {
                        let m = choose|m: int|
                            0 <= m < n + 1 && m < hs@.len() && #[trigger] hs@[m] == place_on(
                                Line::Block,
                                x,
                                y,
                            ) && !chosen.contains(hs@[m]);
                        if m < n {
                            assert(region(x, y));
                        }
                    }
                    if region(x, y) {
                        let m = choose|m: int|
                            0 <= m < n && m < hs@.len() && #[trigger] hs@[m] == place_on(
                                Line::Block,
                                x,
                                y,
                            ) && !chosen.contains(hs@[m]);
                        assert(wider(x, y));
                    }
                    if x == r && y == col && !chosen.contains(hs@[n as int]) {
                        assert(hs@[n as int] == place_on(Line::Block, x, y));
                        assert(wider(x, y));
                    }
                }
                if region(r as int, col as int) {
                    let m = choose|m: int|
                        0 <= m < n && m < hs@.len() && #[trigger] hs@[m] == place_on(
                            Line::Block,
                            r as int,
                            col as int,
                        ) && !chosen.contains(hs@[m]);
                    assert(hs@[m] < hs@[n as int]);
                }
            }
            if n != a && n != b && n != c {
                proof {
                    assert(!chosen.contains(hs@[n as int])) by {
                        if n < a {
                            assert(hs@[n as int] < hs@[a as int]);
                        } else {
                            assert(hs@[a as int] < hs@[n as int]);
                        }
                        if n < b {
                            assert(hs@[n as int] < hs@[b as int]);
                        } else {
                            assert(hs@[b as int] < hs@[n as int]);
                        }
                        if n < c {
                            assert(hs@[n as int] < hs@[c as int]);
                        } else {
                            assert(hs@[c as int] < hs@[n as int]);
                        }
                    }
                    start.lemma_erase_grow(ds, region, wider, r as int, col as int);
                }
                let hit = self.strike_all_at(r, col, &pool);
                changed = changed || hit;
            } else {
                proof {
                    assert(chosen.contains(hs@[n as int]));
                    start.lemma_erase_same(ds, region, wider);
                }
            }
            n += 1;
        }
        proof {
            start.lemma_erase(ds, others(blk as int, hs@, chosen, hs@.len() as int));
        }
        changed
    }

    /// Applies the naked-subset rule to block `block` for digit `num`.
    /// Returns whether a cell changed.
    pub fn block_pseudo_confirmed(&mut self, num: usize, block: usize) -> (changed: bool)
        requires
            old(self).wf(),
            block < 9,
        ensures
            final(self)@ == old(self)@.subsets_block(block as int, num),
            changed == !old(self)@.same_cells(final(self)@),
            final(self).wf(),
    {
        let ghost start = self@;
        proof {
            start.lemma_narrows_refl();
            start.lemma_holders(block as int, num, 9);
        }
        let hs = match self.collect_holders(block, num) {
            None => {
                return false;
            },
            Some(v) => v,
        };
        let n = hs.len();
        let mut changed = false;
        let mut j: usize = 0;
        while j < n
            invariant
                j <= n,
                n == hs.len(),
                block < 9,
                ascending(hs@),
                start.wf(),
                self.wf(),
                self@ == start.pairs(block as int, hs@, j as int, 0),
                changed == !start.same_cells(self@),
            decreases n - j,
        {
            let mut i: usize = 0;
            while i < j
                invariant
                    i <= j,
                    j < n,
                    n == hs.len(),
                    block < 9,
                    ascending(hs@),
                    start.wf(),
                    self.wf(),
                    self@ == start.pairs(block as int, hs@, j as int, i as int),
                    changed == !start.same_cells(self@),
                decreases j - i,
            {
                let ghost before = self@;
                let ghost chosen = set![hs@[i as int], hs@[j as int]];
                proof {
                    assert(set![hs@[i as int], hs@[j as int], hs@[j as int]] =~= chosen);
                    start.lemma_pairs(block as int, hs@, j as int, i as int);
                    before.lemma_subset_step(block as int, hs@, chosen, 2);
                    start.lemma_changed_chain(
                        before,
                        before.subset_step(block as int, hs@, chosen, 2),
                    );
                }
                let step = self.subset_step(block, &hs, i, j, j, 2);
                changed = changed || step;
                i += 1;
            }
            j += 1;
        }
        let ghost mid = self@;
        proof {
            start.lemma_pairs(block as int, hs@, n as int, 0);
            mid.lemma_narrows_refl();
        }
        let mut c: usize = 0;
        while c < n
            invariant
                c <= n,
                n == hs.len(),
                block < 9,
                ascending(hs@),
                start.wf(),
                mid.wf(),
                start.narrows_to(mid),
                self.wf(),
                self@ == mid.triples(block as int, hs@, c as int, 0, 0),
                changed == !start.same_cells(self@),
            decreases n - c,
        {
            let mut b: usize = 0;
            while b < c
                invariant
                    b <= c,
                    c < n,
                    n == hs.len(),
                    block < 9,
                    ascending(hs@),
                    start.wf(),
                    mid.wf(),
                    start.narrows_to(mid),
                    self.wf(),
                    self@ == mid.triples(block as int, hs@, c as int, b as int, 0),
                    changed == !start.same_cells(self@),
                decreases c - b,
            {
                let mut a: usize = 0;
                while a < b
                    invariant
                        a <= b,
                        b < c,
                        c < n,
                        n == hs.len(),
                        block < 9,
                        ascending(hs@),
                        start.wf(),
                        mid.wf(),
                        start.narrows_to(mid),
                        self.wf(),
                        self@ == mid.triples(block as int, hs@, c as int, b as int, a as int),
                        changed == !start.same_cells(self@),
                    decreases b - a,
                {
                    let ghost before = self@;
                    let ghost chosen = set![hs@[a as int], hs@[b as int], hs@[c as int]];
                    proof {
                        mid.lemma_triples(block as int, hs@, c as int, b as int, a as int);
                        start.lemma_narrows_trans(mid, before);
                        before.lemma_subset_step(block as int, hs@, chosen, 3);
                        start.lemma_changed_chain(
                            before,
                            before.subset_step(block as int, hs@, chosen, 3),
                        );
                    }
                    let step = self.subset_step(block, &hs, a, b, c, 3);
                    changed = changed || step;
                    a += 1;
                }
                b += 1;
            }
            c += 1;
        }
        changed
    }

    /// Applies the naked-subset rule for digit `num` to the nine blocks, in
    /// order. Returns whether a cell changed.
    pub fn pseudo_confirmed(&mut self, num: usize) -> (changed: bool)
        requires
            old(self).wf(),
        ensures
            final(self)@ == old(self)@.subsets(num, 9),
            changed == !old(self)@.same_cells(final(self)@),
            final(self).wf(),
    {
        let ghost start = self@;
        let mut changed = false;
        let mut block: usize = 0;
        proof {
            start.lemma_narrows_refl();
        }
        while block < 9
            invariant
                block <= 9,
                start.wf(),
                self.wf(),
                self@ == start.subsets(num, block as int),
                changed == !start.same_cells(self@),
            decreases 9 - block,
        {
            let ghost before = self@;
            proof {
                start.lemma_subsets(num, block as int);
                before.lemma_subsets_block(block as int, num);
                start.lemma_changed_chain(before, before.subsets_block(block as int, num));
            }
            let step = self.block_pseudo_confirmed(num, block);
            changed = changed || step;
            block += 1;
        }
        changed
    }
}

} // verus!
