//! A board at a standstill stays there: once a round of propagation changes
//! no cell, no later round does, whatever lines have been recorded as
//! cleared in between.
use super::grid::{block_of, inside, Board, Cell, Line};
use super::lines::line_except;
use super::subsets::others;
use vstd::prelude::*;

verus! {

impl Board {
    /// `later` holds the same cells as `self` and every record of a cleared
    /// line that `self` holds.
    pub open spec fn behind(self, later: Board) -> bool {
        &&& self.cells == later.cells
        &&& forall|kind: Line, i: int, d: usize|
            0 <= i < 9 && 1 <= d <= 9 && #[trigger] self.done(kind, i, d) ==> later.done(kind, i, d)
    }

    /// Boards with the same cells are hit alike by a strike.
    pub proof fn lemma_hit_same(
        self,
        other: Board,
        ds: Set<usize>,
        region: spec_fn(int, int) -> bool,
    )
        requires
            self.cells == other.cells,
        ensures
            self.hit(ds, region) == other.hit(ds, region),
    {
        if self.hit(ds, region) {
            let (r, c) = choose|r: int, c: int|
                inside(r, c) && region(r, c) && (#[trigger] self.at(r, c)).meets(ds);
            assert(other.at(r, c).meets(ds));
        }
        if other.hit(ds, region) {
            let (r, c) = choose|r: int, c: int|
                inside(r, c) && region(r, c) && (#[trigger] other.at(r, c)).meets(ds);
            assert(self.at(r, c).meets(ds));
        }
    }

    /// A strike that hits nothing leaves the board as it is.
    pub proof fn lemma_miss(self, ds: Set<usize>, region: spec_fn(int, int) -> bool)
        requires
            self.wf(),
            !self.hit(ds, region),
        ensures
            self.erase(ds, region) == self,
    {
        self.lemma_erase(ds, region);
        self.lemma_same_cells(self.erase(ds, region));
    }

    /// Line uniqueness on a board at rest under it is at rest on every
    /// board that is ahead in its records.
    pub proof fn lemma_still_line(self, m: Board, kind: Line, i: int, d: usize)
        requires
            self.wf(),
            m.wf(),
            self.behind(m),
            0 <= i < 9,
            1 <= d <= 9,
            self.same_cells(self.clear_line(kind, i, d)),
        ensures
            m.same_cells(m.clear_line(kind, i, d)),
            self.clear_line(kind, i, d).behind(m.clear_line(kind, i, d)),
    {
        let ds = set![d];
        assert(forall|j: int| #![trigger self.on(kind, i, j)] #![trigger m.on(kind, i, j)]
            self.on(kind, i, j) == m.on(kind, i, j));
        self.lemma_clear_line(kind, i, d);
        self.lemma_same_cells(self.clear_line(kind, i, d));
        if self.line_ready(kind, i, d) {
            let k = choose|k: int| self.pinned_at(kind, i, d, k);
            let am = self.mark(kind, i, d);
            self.lemma_mark(kind, i, d);
            am.lemma_erase(ds, line_except(kind, i, k, 9));
            assert(am.same_cells(am.erase(ds, line_except(kind, i, k, 9)))) by {
                assert(forall|r: int, c: int| self.at(r, c) == am.at(r, c));
            }
            am.lemma_miss(ds, line_except(kind, i, k, 9));
            assert(self.clear_line(kind, i, d) == am);
            if m.done(kind, i, d) {
                assert forall|n: Line, j: int, e: usize|
                    0 <= j < 9 && 1 <= e <= 9 && #[trigger] am.done(n, j, e) implies m.done(n, j, e) by {
                    if !(n == kind && j == i && e == d) {
                        assert(self.done(n, j, e));
                    }
                }
            } else {
                assert(m.pinned_at(kind, i, d, k));
                let k2 = choose|k2: int| m.pinned_at(kind, i, d, k2);
                if k2 != k {
                    assert(!m.on(kind, i, k2).pins(d));
                }
                let mm = m.mark(kind, i, d);
                m.lemma_mark(kind, i, d);
                am.lemma_hit_same(mm, ds, line_except(kind, i, k, 9));
                mm.lemma_miss(ds, line_except(kind, i, k, 9));
                assert(m.clear_line(kind, i, d) == mm);
                assert forall|n: Line, j: int, e: usize|
                    0 <= j < 9 && 1 <= e <= 9 && #[trigger] am.done(n, j, e) implies mm.done(n, j, e) by {
                    if !(n == kind && j == i && e == d) {
                        assert(self.done(n, j, e));
                        assert(m.done(n, j, e));
                    }
                }
            }
        } else {
            if m.line_ready(kind, i, d) {
                let k = choose|k: int| m.pinned_at(kind, i, d, k);
                assert(self.pinned_at(kind, i, d, k));
                assert(self.done(kind, i, d));
            }
        }
    }

    /// The same for the first `n` lines of a kind.
    pub proof fn lemma_still_lines(self, m: Board, kind: Line, d: usize, n: int)
        requires
            self.wf(),
            m.wf(),
            self.behind(m),
            0 <= n <= 9,
            1 <= d <= 9,
            self.same_cells(self.clear_lines(kind, d, n)),
        ensures
            m.same_cells(m.clear_lines(kind, d, n)),
            self.clear_lines(kind, d, n).behind(m.clear_lines(kind, d, n)),
        decreases n,
    {
        if n > 0 {
            let a1 = self.clear_lines(kind, d, n - 1);
            let m1 = m.clear_lines(kind, d, n - 1);
            self.lemma_clear_lines(kind, d, n - 1);
            m.lemma_clear_lines(kind, d, n - 1);
            a1.lemma_clear_line(kind, n - 1, d);
            m1.lemma_clear_line(kind, n - 1, d);
            self.lemma_changed_chain(a1, a1.clear_line(kind, n - 1, d));
            self.lemma_still_lines(m, kind, d, n - 1);
            a1.lemma_still_line(m1, kind, n - 1, d);
            m.lemma_changed_chain(m1, m1.clear_line(kind, n - 1, d));
        } else {
            m.lemma_narrows_refl();
        }
    }

    /// The same for all lines: rows, columns, blocks.
    pub proof fn lemma_still_all_lines(self, m: Board, d: usize)
        requires
            self.wf(),
            m.wf(),
            self.behind(m),
            1 <= d <= 9,
            self.same_cells(self.clear_all_lines(d)),
        ensures
            m.same_cells(m.clear_all_lines(d)),
            self.clear_all_lines(d).behind(m.clear_all_lines(d)),
    {
        let a1 = self.clear_lines(Line::Row, d, 9);
        let a2 = a1.clear_lines(Line::Column, d, 9);
        let a3 = a2.clear_lines(Line::Block, d, 9);
        let m1 = m.clear_lines(Line::Row, d, 9);
        let m2 = m1.clear_lines(Line::Column, d, 9);
        let m3 = m2.clear_lines(Line::Block, d, 9);
        self.lemma_clear_lines(Line::Row, d, 9);
        a1.lemma_clear_lines(Line::Column, d, 9);
        a2.lemma_clear_lines(Line::Block, d, 9);
        m.lemma_clear_lines(Line::Row, d, 9);
        m1.lemma_clear_lines(Line::Column, d, 9);
        m2.lemma_clear_lines(Line::Block, d, 9);
        self.lemma_changed_chain(a1, a2);
        self.lemma_changed_chain(a2, a3);
        a1.lemma_changed_chain(a2, a3);
        self.lemma_still_lines(m, Line::Row, d, 9);
        a1.lemma_still_lines(m1, Line::Column, d, 9);
        a2.lemma_still_lines(m2, Line::Block, d, 9);
        m.lemma_changed_chain(m1, m2);
        m.lemma_changed_chain(m2, m3);
    }

    /// Boards with the same cells confine a digit alike.
    pub proof fn lemma_confined_same(self, m: Board, blk: int, d: usize)
        requires
            self.cells == m.cells,
        ensures
            forall|r: int| self.row_confined(blk, d, r) == m.row_confined(blk, d, r),
            forall|c: int| self.col_confined(blk, d, c) == m.col_confined(blk, d, c),
    {
        assert(forall|r: int, c: int| #![trigger self.at(r, c)] #![trigger m.at(r, c)]
            self.at(r, c) == m.at(r, c));
        assert forall|r: int| #![trigger self.row_offers(blk, d, r)] #![trigger m.row_offers(blk, d, r)]
            self.row_offers(blk, d, r) == m.row_offers(blk, d, r) by {
            if self.row_offers(blk, d, r) {
                let c = choose|c: int|
                    0 <= c < 9 && block_of(r, c) == blk && (#[trigger] self.at(r, c)).offers(d);
                assert(m.at(r, c).offers(d));
            }
            if m.row_offers(blk, d, r) {
                let c = choose|c: int|
                    0 <= c < 9 && block_of(r, c) == blk && (#[trigger] m.at(r, c)).offers(d);
                assert(self.at(r, c).offers(d));
            }
        }
        assert forall|c: int| #![trigger self.col_offers(blk, d, c)] #![trigger m.col_offers(blk, d, c)]
            self.col_offers(blk, d, c) == m.col_offers(blk, d, c) by {
            if self.col_offers(blk, d, c) {
                let r = choose|r: int|
                    0 <= r < 9 && block_of(r, c) == blk && (#[trigger] self.at(r, c)).offers(d);
                assert(m.at(r, c).offers(d));
            }
            if m.col_offers(blk, d, c) {
                let r = choose|r: int|
                    0 <= r < 9 && block_of(r, c) == blk && (#[trigger] m.at(r, c)).offers(d);
                assert(self.at(r, c).offers(d));
            }
        }
        assert forall|r: int| self.row_confined(blk, d, r) == m.row_confined(blk, d, r) by {
            if self.row_confined(blk, d, r) {
                assert forall|q: int| 0 <= q < 9 && q != r implies !#[trigger] m.row_offers(blk, d, q) by {
                    assert(!self.row_offers(blk, d, q));
                }
            }
            if m.row_confined(blk, d, r) {
                assert forall|q: int| 0 <= q < 9 && q != r implies !#[trigger] self.row_offers(blk, d, q) by {
                    assert(!m.row_offers(blk, d, q));
                }
            }
        }
        assert forall|c: int| self.col_confined(blk, d, c) == m.col_confined(blk, d, c) by {
            if self.col_confined(blk, d, c) {
                assert forall|q: int| 0 <= q < 9 && q != c implies !#[trigger] m.col_offers(blk, d, q) by {
                    assert(!self.col_offers(blk, d, q));
                }
            }
            if m.col_confined(blk, d, c) {
                assert forall|q: int| 0 <= q < 9 && q != c implies !#[trigger] self.col_offers(blk, d, q) by {
                    assert(!m.col_offers(blk, d, q));
                }
            }
        }
    }

    /// The pointing rule on a block: at rest on one board, at rest on every
    /// board with the same cells.
    pub proof fn lemma_still_point(self, m: Board, blk: int, d: usize)
        requires
            self.wf(),
            m.wf(),
            self.behind(m),
            self.same_cells(self.point_block(blk, d)),
        ensures
            m.same_cells(m.point_block(blk, d)),
            self.point_block(blk, d).behind(m.point_block(blk, d)),
    {
        let ds = set![d];
        let ra = self.pointed(blk, d, 9, 9);
        let rm = m.pointed(blk, d, 9, 9);
        self.lemma_erase(ds, ra);
        self.lemma_miss(ds, ra);
        self.lemma_confined_same(m, blk, d);
        assert forall|x: int, y: int| inside(x, y) implies (#[trigger] rm(x, y) <==> ra(x, y)) by {
            assert(self.row_confined(blk, d, x) == m.row_confined(blk, d, x));
            assert(self.col_confined(blk, d, y) == m.col_confined(blk, d, y));
        }
        m.lemma_erase_same(ds, ra, rm);
        self.lemma_hit_same(m, ds, ra);
        m.lemma_miss(ds, rm);
        m.lemma_narrows_refl();
    }

    /// The same for the first `n` blocks.
    pub proof fn lemma_still_points(self, m: Board, d: usize, n: int)
        requires
            self.wf(),
            m.wf(),
            self.behind(m),
            0 <= n <= 9,
            self.same_cells(self.point_blocks(d, n)),
        ensures
            m.same_cells(m.point_blocks(d, n)),
            self.point_blocks(d, n).behind(m.point_blocks(d, n)),
        decreases n,
    {
        if n > 0 {
            let a1 = self.point_blocks(d, n - 1);
            let m1 = m.point_blocks(d, n - 1);
            self.lemma_point_blocks(d, n - 1);
            m.lemma_point_blocks(d, n - 1);
            self.lemma_point_blocks(d, n);
            m.lemma_point_blocks(d, n);
            a1.lemma_erase(set![d], a1.pointed(n - 1, d, 9, 9));
            m1.lemma_erase(set![d], m1.pointed(n - 1, d, 9, 9));
            self.lemma_changed_chain(a1, a1.point_block(n - 1, d));
            self.lemma_still_points(m, d, n - 1);
            a1.lemma_still_point(m1, n - 1, d);
            m.lemma_changed_chain(m1, m1.point_block(n - 1, d));
        } else {
            m.lemma_narrows_refl();
        }
    }

    /// Boards with the same cells pool the same digits and have the same holders.
    pub proof fn lemma_pool_same(self, m: Board, blk: int, chosen: Set<usize>)
        requires
            self.cells == m.cells,
        ensures
            self.pool(blk, chosen) == m.pool(blk, chosen),
    {
        assert(forall|k: int| #![trigger self.on(Line::Block, blk, k)] #![trigger m.on(Line::Block, blk, k)]
            self.on(Line::Block, blk, k) == m.on(Line::Block, blk, k));
        assert forall|d: usize| self.pool(blk, chosen).contains(d) == m.pool(blk, chosen).contains(d) by {
            if self.pool(blk, chosen).contains(d) {
                let k = choose|k: usize|
                    chosen.contains(k) && k < 9 && (#[trigger] self.on(Line::Block, blk, k as int)).offers(d);
                assert(m.on(Line::Block, blk, k as int).offers(d));
            }
            if m.pool(blk, chosen).contains(d) {
                let k = choose|k: usize|
                    chosen.contains(k) && k < 9 && (#[trigger] m.on(Line::Block, blk, k as int)).offers(d);
                assert(self.on(Line::Block, blk, k as int).offers(d));
            }
        }
        assert(self.pool(blk, chosen) =~= m.pool(blk, chosen));
    }

    /// Boards with the same cells have the same holders of a digit in a block.
    pub proof fn lemma_holders_same(self, m: Board, blk: int, d: usize, upto: int)
        requires
            self.cells == m.cells,
        ensures
            self.holders(blk, d, upto) == m.holders(blk, d, upto),
            self.block_settled(blk, d) == m.block_settled(blk, d),
        decreases upto,
    {
        assert(forall|k: int| #![trigger self.on(Line::Block, blk, k)] #![trigger m.on(Line::Block, blk, k)]
            self.on(Line::Block, blk, k) == m.on(Line::Block, blk, k));
        if upto > 0 {
            self.lemma_holders_same(m, blk, d, upto - 1);
        }
        if self.block_settled(blk, d) {
            let k = choose|k: int| 0 <= k < 9 && #[trigger] self.on(Line::Block, blk, k) == Cell::Fixed(d);
            assert(m.on(Line::Block, blk, k) == Cell::Fixed(d));
        }
        if m.block_settled(blk, d) {
            let k = choose|k: int| 0 <= k < 9 && #[trigger] m.on(Line::Block, blk, k) == Cell::Fixed(d);
            assert(self.on(Line::Block, blk, k) == Cell::Fixed(d));
        }
    }

    /// One step of the naked-subset rule: at rest on one board, at rest on
    /// every board with the same cells.
    pub proof fn lemma_still_step(self, m: Board, blk: int, hs: Seq<usize>, chosen: Set<usize>, size: nat)
        requires
            self.wf(),
            m.wf(),
            self.behind(m),
            self.same_cells(self.subset_step(blk, hs, chosen, size)),
        ensures
            m.same_cells(m.subset_step(blk, hs, chosen, size)),
            self.subset_step(blk, hs, chosen, size).behind(m.subset_step(blk, hs, chosen, size)),
    {
        self.lemma_pool_same(m, blk, chosen);
        let ds = self.pool(blk, chosen);
        let region = others(blk, hs, chosen, hs.len() as int);
        m.lemma_narrows_refl();
        if ds.len() == size {
            self.lemma_erase(ds, region);
            self.lemma_miss(ds, region);
            self.lemma_hit_same(m, ds, region);
            m.lemma_miss(ds, region);
        }
    }

    /// The same for the steps over pairs.
    pub proof fn lemma_still_pairs(self, m: Board, blk: int, hs: Seq<usize>, j: int, i: int)
        requires
            self.wf(),
            m.wf(),
            self.behind(m),
            self.same_cells(self.pairs(blk, hs, j, i)),
        ensures
            m.same_cells(m.pairs(blk, hs, j, i)),
            self.pairs(blk, hs, j, i).behind(m.pairs(blk, hs, j, i)),
        decreases j, i,
    {
        if j <= 0 {
            m.lemma_narrows_refl();
        } else if i <= 0 {
            self.lemma_still_pairs(m, blk, hs, j - 1, j - 1);
        } else {
            let chosen = set![hs[i - 1], hs[j]];
            let a1 = self.pairs(blk, hs, j, i - 1);
            let m1 = m.pairs(blk, hs, j, i - 1);
            self.lemma_pairs(blk, hs, j, i - 1);
            m.lemma_pairs(blk, hs, j, i - 1);
            a1.lemma_subset_step(blk, hs, chosen, 2);
            m1.lemma_subset_step(blk, hs, chosen, 2);
            self.lemma_changed_chain(a1, a1.subset_step(blk, hs, chosen, 2));
            self.lemma_still_pairs(m, blk, hs, j, i - 1);
            a1.lemma_still_step(m1, blk, hs, chosen, 2);
            m.lemma_changed_chain(m1, m1.subset_step(blk, hs, chosen, 2));
        }
    }

    /// The same for the steps over triples.
    pub proof fn lemma_still_triples(self, m: Board, blk: int, hs: Seq<usize>, c: int, b: int, a: int)
        requires
            self.wf(),
            m.wf(),
            self.behind(m),
            self.same_cells(self.triples(blk, hs, c, b, a)),
        ensures
            m.same_cells(m.triples(blk, hs, c, b, a)),
            self.triples(blk, hs, c, b, a).behind(m.triples(blk, hs, c, b, a)),
        decreases c, b, a,
    {
        if c <= 0 {
            m.lemma_narrows_refl();
        } else if b <= 0 {
            self.lemma_still_triples(m, blk, hs, c - 1, c - 1, 0);
        } else if a <= 0 {
            self.lemma_still_triples(m, blk, hs, c, b - 1, b - 1);
        } else {
            let chosen = set![hs[a - 1], hs[b], hs[c]];
            let a1 = self.triples(blk, hs, c, b, a - 1);
            let m1 = m.triples(blk, hs, c, b, a - 1);
            self.lemma_triples(blk, hs, c, b, a - 1);
            m.lemma_triples(blk, hs, c, b, a - 1);
            a1.lemma_subset_step(blk, hs, chosen, 3);
            m1.lemma_subset_step(blk, hs, chosen, 3);
            self.lemma_changed_chain(a1, a1.subset_step(blk, hs, chosen, 3));
            self.lemma_still_triples(m, blk, hs, c, b, a - 1);
            a1.lemma_still_step(m1, blk, hs, chosen, 3);
            m.lemma_changed_chain(m1, m1.subset_step(blk, hs, chosen, 3));
        }
    }

    /// The same for the naked-subset rule on a block.
    pub proof fn lemma_still_subsets_block(self, m: Board, blk: int, d: usize)
        requires
            self.wf(),
            m.wf(),
            self.behind(m),
            self.same_cells(self.subsets_block(blk, d)),
        ensures
            m.same_cells(m.subsets_block(blk, d)),
            self.subsets_block(blk, d).behind(m.subsets_block(blk, d)),
    {
        self.lemma_holders_same(m, blk, d, 9);
        m.lemma_narrows_refl();
        if !self.block_settled(blk, d) {
            let hs = self.holders(blk, d, 9);
            let n = hs.len() as int;
            let a1 = self.pairs(blk, hs, n, 0);
            let m1 = m.pairs(blk, hs, n, 0);
            self.lemma_pairs(blk, hs, n, 0);
            m.lemma_pairs(blk, hs, n, 0);
            a1.lemma_triples(blk, hs, n, 0, 0);
            m1.lemma_triples(blk, hs, n, 0, 0);
            self.lemma_changed_chain(a1, a1.triples(blk, hs, n, 0, 0));
            self.lemma_still_pairs(m, blk, hs, n, 0);
            a1.lemma_still_triples(m1, blk, hs, n, 0, 0);
            m.lemma_changed_chain(m1, m1.triples(blk, hs, n, 0, 0));
        }
    }

    /// The same for the rule on the first `n` blocks.
    pub proof fn lemma_still_subsets(self, m: Board, d: usize, n: int)
        requires
            self.wf(),
            m.wf(),
            self.behind(m),
            self.same_cells(self.subsets(d, n)),
        ensures
            m.same_cells(m.subsets(d, n)),
            self.subsets(d, n).behind(m.subsets(d, n)),
        decreases n,
    {
        if n > 0 {
            let a1 = self.subsets(d, n - 1);
            let m1 = m.subsets(d, n - 1);
            self.lemma_subsets(d, n - 1);
            m.lemma_subsets(d, n - 1);
            a1.lemma_subsets_block(n - 1, d);
            m1.lemma_subsets_block(n - 1, d);
            self.lemma_changed_chain(a1, a1.subsets_block(n - 1, d));
            self.lemma_still_subsets(m, d, n - 1);
            a1.lemma_still_subsets_block(m1, n - 1, d);
            m.lemma_changed_chain(m1, m1.subsets_block(n - 1, d));
        } else {
            m.lemma_narrows_refl();
        }
    }

    /// The same for the three rules for one digit.
    pub proof fn lemma_still_deduce(self, m: Board, d: usize)
        requires
            self.wf(),
            m.wf(),
            self.behind(m),
            1 <= d <= 9,
            self.same_cells(self.deduce(d)),
        ensures
            m.same_cells(m.deduce(d)),
            self.deduce(d).behind(m.deduce(d)),
    {
        let a1 = self.clear_all_lines(d);
        let a2 = a1.point_blocks(d, 9);
        let a3 = a2.subsets(d, 9);
        let m1 = m.clear_all_lines(d);
        let m2 = m1.point_blocks(d, 9);
        let m3 = m2.subsets(d, 9);
        self.lemma_clear_all_lines(d);
        a1.lemma_point_blocks(d, 9);
        a2.lemma_subsets(d, 9);
        m.lemma_clear_all_lines(d);
        m1.lemma_point_blocks(d, 9);
        m2.lemma_subsets(d, 9);
        self.lemma_changed_chain(a1, a2);
        self.lemma_changed_chain(a2, a3);
        a1.lemma_changed_chain(a2, a3);
        self.lemma_still_all_lines(m, d);
        a1.lemma_still_points(m1, d, 9);
        a2.lemma_still_subsets(m2, d, 9);
        m.lemma_changed_chain(m1, m2);
        m.lemma_changed_chain(m2, m3);
    }

    /// The same for the rules for the digits 1 to `n`.
    pub proof fn lemma_still_deduce_upto(self, m: Board, n: int)
        requires
            self.wf(),
            m.wf(),
            self.behind(m),
            0 <= n <= 9,
            self.same_cells(self.deduce_upto(n)),
        ensures
            m.same_cells(m.deduce_upto(n)),
            self.deduce_upto(n).behind(m.deduce_upto(n)),
        decreases n,
    {
        if n > 0 {
            let a1 = self.deduce_upto(n - 1);
            let m1 = m.deduce_upto(n - 1);
            self.lemma_deduce_upto(n - 1);
            m.lemma_deduce_upto(n - 1);
            a1.lemma_deduce(n as usize);
            m1.lemma_deduce(n as usize);
            self.lemma_changed_chain(a1, a1.deduce(n as usize));
            self.lemma_still_deduce_upto(m, n - 1);
            a1.lemma_still_deduce(m1, n as usize);
            m.lemma_changed_chain(m1, m1.deduce(n as usize));
        } else {
            m.lemma_narrows_refl();
        }
    }

    /// The same for the confirming sweep over the first `n` cells.
    pub proof fn lemma_still_sweep(self, m: Board, n: int)
        requires
            self.wf(),
            m.wf(),
            self.behind(m),
            0 <= n <= 81,
            self.same_cells(self.sweep(n)),
        ensures
            m.same_cells(m.sweep(n)),
            self.sweep(n).behind(m.sweep(n)),
        decreases n,
    {
        if n > 0 {
            let r = (n - 1) / 9;
            let c = (n - 1) % 9;
            let a1 = self.sweep(n - 1);
            let m1 = m.sweep(n - 1);
            self.lemma_sweep(n - 1);
            m.lemma_sweep(n - 1);
            a1.lemma_confirm_at(r, c);
            m1.lemma_confirm_at(r, c);
            self.lemma_changed_chain(a1, a1.confirm_at(r, c));
            self.lemma_still_sweep(m, n - 1);
            assert(a1.at(r, c) == m1.at(r, c));
            m.lemma_changed_chain(m1, m1.confirm_at(r, c));
        } else {
            m.lemma_narrows_refl();
        }
    }

    /// A round at rest on one board is at rest on every board that holds
    /// the same cells and is ahead in its records.
    pub proof fn lemma_still_round(self, m: Board)
        requires
            self.wf(),
            m.wf(),
            self.behind(m),
            self.same_cells(self.round()),
        ensures
            m.same_cells(m.round()),
    {
        let a1 = self.deduce_upto(9);
        let m1 = m.deduce_upto(9);
        self.lemma_deduce_upto(9);
        m.lemma_deduce_upto(9);
        a1.lemma_sweep(81);
        m1.lemma_sweep(81);
        self.lemma_changed_chain(a1, a1.sweep(81));
        self.lemma_still_deduce_upto(m, 9);
        a1.lemma_still_sweep(m1, 81);
        m.lemma_changed_chain(m1, m1.sweep(81));
    }

    /// A board at a standstill stays there: when a round of propagation
    /// changes no cell, the round after it changes none either.
    pub proof fn lemma_standstill(self)
        requires
            self.wf(),
            self.same_cells(self.round()),
        ensures
            self.round().same_cells(self.round().round()),
    {
        self.lemma_round();
        self.lemma_same_cells(self.round());
        self.lemma_still_round(self.round());
    }
}

} // verus!
