//! The search: propagation to a standstill, then guesses on the cell with
//! the fewest candidates, each on a copy of the board that is dropped when
//! the guess fails.
use super::board::SudokuSolver;
use super::cell::FieldElement;
use super::grid::{inside, Board, Cell};
use super::validate::{
    lemma_solved_full, lemma_unfinished_vacant, lemma_verdict_same, lemma_verdict_solved, outcome,
};
use crate::solver::{PuzzleError, PuzzleResult, Solver};
use vstd::prelude::*;

verus! {

impl Board {
    /// The board after rounds of propagation are run until one of them
    /// changes no cell.
    pub open spec fn settle_all(self) -> Board
        decreases self.weight(),
        when self.wf()
        via Self::settle_all_decreases
    {
        let next = self.round();
        if self.same_cells(next) {
            next
        } else {
            next.settle_all()
        }
    }

    #[via_fn]
    /// A round that changes a cell lowers the weight.
    proof fn settle_all_decreases(self) {
        self.lemma_round();
        self.lemma_narrows_weight(self.round());
    }

    /// Propagation to a standstill keeps the board well formed and narrows it.
    pub proof fn lemma_settle_all(self)
        requires
            self.wf(),
        ensures
            self.settle_all().wf(),
            self.narrows_to(self.settle_all()),
        decreases self.weight(),
    {
        let next = self.round();
        self.lemma_round();
        self.lemma_narrows_weight(next);
        if !self.same_cells(next) {
            next.lemma_settle_all();
            self.lemma_narrows_trans(next, next.settle_all());
        }
    }
}

/// The digits up to `n` of the set `s`, in ascending order, each as a guess
/// for the cell at (`r`, `c`).
pub open spec fn guesses(s: Set<usize>, r: usize, c: usize, n: int) -> Seq<(usize, usize, usize)>
    decreases n,
{
    if n <= 0 {
        Seq::empty()
    } else if s.contains(n as usize) {
        guesses(s, r, c, n - 1).push((n as usize, r, c))
    } else {
        guesses(s, r, c, n - 1)
    }
}

impl Board {
    /// Among the first `n` cells, counted row by row, the open cell with the
    /// fewest candidates, the first of them where several have as few;
    /// `None` where none of the `n` is open.
    pub open spec fn pick(self, n: int) -> Option<int>
        decreases n,
    {
        if n <= 0 {
            None
        } else {
            match (self.pick(n - 1), self.nth(n - 1)) {
                (found, Cell::Fixed(_)) => found,
                (None, Cell::Candidates(_)) => Some(n - 1),
                (Some(k), Cell::Candidates(s)) => if s.len() < self.nth(k).candidates().len() {
                    Some(n - 1)
                } else {
                    Some(k)
                },
            }
        }
    }

    /// Cell `k`, counted row by row, is open, no open cell has fewer
    /// candidates, and every open cell before it has more.
    pub open spec fn least_open(self, k: int) -> bool {
        &&& 0 <= k < 81
        &&& self.nth(k) is Candidates
        &&& forall|j: int|
            0 <= j < 81 && (#[trigger] self.nth(j)) is Candidates ==> self.nth(k).candidates().len()
                <= self.nth(j).candidates().len()
        &&& forall|j: int|
            0 <= j < k && (#[trigger] self.nth(j)) is Candidates ==> self.nth(k).candidates().len()
                < self.nth(j).candidates().len()
    }

    /// The guesses to try on this board: the candidates of the picked cell,
    /// in ascending order; none where no cell is open.
    pub open spec fn options(self) -> Seq<(usize, usize, usize)> {
        match self.pick(81) {
            Some(k) => guesses(self.nth(k).candidates(), (k / 9) as usize, (k % 9) as usize, 9),
            None => Seq::empty(),
        }
    }

    /// Every guess names an open cell of the board and one of its candidates.
    pub open spec fn open_to(self, opts: Seq<(usize, usize, usize)>) -> bool {
        forall|i: int|
            0 <= i < opts.len() ==> {
                let (d, r, c) = #[trigger] opts[i];
                1 <= d <= 9 && r < 9 && c < 9 && self.at(r as int, c as int).offers(d)
            }
    }

    /// The picked cell is open and has the fewest candidates of all open
    /// cells before `n`; every open cell before it has more. A cell is
    /// picked exactly when one is open.
    pub proof fn lemma_pick(self, n: int)
        requires
            0 <= n <= 81,
        ensures
            match self.pick(n) {
                Some(k) => {
                    &&& 0 <= k < n
                    &&& self.nth(k) is Candidates
                    &&& forall|j: int|
                        0 <= j < n && (#[trigger] self.nth(j)) is Candidates ==> self.nth(
                            k,
                        ).candidates().len() <= self.nth(j).candidates().len()
                    &&& forall|j: int|
                        0 <= j < k && (#[trigger] self.nth(j)) is Candidates ==> self.nth(
                            k,
                        ).candidates().len() < self.nth(j).candidates().len()
                },
                None => forall|j: int| 0 <= j < n ==> (#[trigger] self.nth(j)) is Fixed,
            },
        decreases n,
    {
        if n > 0 {
            self.lemma_pick(n - 1);
        }
    }

    /// The guesses drawn from a set are its digits, each for the same cell.
    pub proof fn lemma_guesses(s: Set<usize>, r: usize, c: usize, n: int)
        requires
            0 <= n <= 9,
        ensures
            forall|i: int|
                0 <= i < guesses(s, r, c, n).len() ==> {
                    let g = #[trigger] guesses(s, r, c, n)[i];
                    1 <= g.0 <= n && s.contains(g.0) && g.1 == r && g.2 == c
                },
        decreases n,
    {
        if n > 0 {
            Self::lemma_guesses(s, r, c, n - 1);
            let prev = guesses(s, r, c, n - 1);
            let all = guesses(s, r, c, n);
            assert forall|i: int| 0 <= i < all.len() implies {
                let g = #[trigger] all[i];
                1 <= g.0 <= n && s.contains(g.0) && g.1 == r && g.2 == c
            } by {
                if i < prev.len() {
                    assert(all[i] == prev[i]);
                }
            }
        }
    }

    /// The guesses of a board go to one of its open cells.
    pub proof fn lemma_options(self)
        ensures
            self.open_to(self.options()),
            self.vacant() && self.shaped() ==> self.pick(81) is Some,
    {
        self.lemma_pick(81);
        match self.pick(81) {
            Some(k) => {
                let r = (k / 9) as usize;
                let c = (k % 9) as usize;
                Self::lemma_guesses(self.nth(k).candidates(), r, c, 9);
            },
            None => {
                if self.vacant() {
                    let (r, c) = choose|r: int, c: int| inside(r, c) && #[trigger] self.at(r, c) is Candidates;
                    let k = r * 9 + c;
                    assert(k / 9 == r && k % 9 == c);
                    assert(self.nth(k) is Fixed);
                }
            },
        }
    }
}

/// How a search ended: well, or with the message of its error.
pub open spec fn ending(r: PuzzleResult<()>) -> Result<(), Seq<char>> {
    match r {
        Ok(_) => Ok(()),
        Err(e) => Err(e@),
    }
}

/// The message with which a search reports that every guess has failed.
pub open spec fn dead_end() -> Seq<char> {
    "not found path"@
}

impl Board {
    /// The board after a guess is made and propagated to a standstill.
    pub open spec fn after_guess(self, guess: (usize, usize, usize)) -> Board {
        self.put(guess.1 as int, guess.2 as int, Cell::Fixed(guess.0)).settle_all()
    }

    /// What the search makes of the guesses `opts[i..]` on this board, and
    /// how it ends.
    ///
    /// Each guess is made on the board as it stands and propagated to a
    /// standstill. Where open cells remain, the search goes on from there
    /// with that board's own guesses, and a solution found there stands; any
    /// failure there drops the guess. Where no cell remains open, the
    /// validator decides: a solved board stands, an inconsistent one ends the
    /// search with the validator's error. When all guesses are dropped the
    /// board is as it was, and the search reports a dead end.
    pub open spec fn attempts(self, opts: Seq<(usize, usize, usize)>, i: int) -> (
        Board,
        Result<(), Seq<char>>,
    )
        decreases self.weight(), opts.len() - i,
        when self.wf() && self.open_to(opts) && 0 <= i
        via Self::attempts_decreases
    {
        if i >= opts.len() {
            (self, Err(dead_end()))
        } else {
            let g = self.after_guess(opts[i]);
            if g.vacant() {
                let deeper = g.attempts(g.options(), 0);
                if deeper.1 is Ok {
                    deeper
                } else {
                    self.attempts(opts, i + 1)
                }
            } else {
                match g.verdict() {
                    Some(true) => (g, Ok(())),
                    Some(false) => self.attempts(opts, i + 1),
                    None => (g, Err(g.fault())),
                }
            }
        }
    }

    #[via_fn]
    /// A guess, propagated, lowers the weight.
    proof fn attempts_decreases(self, opts: Seq<(usize, usize, usize)>, i: int) {
        if i < opts.len() {
            self.lemma_after_guess(opts[i]);
        }
    }

    /// A guess on an open cell, propagated, gives a well-formed board that
    /// weighs less.
    pub proof fn lemma_after_guess(self, guess: (usize, usize, usize))
        requires
            self.wf(),
            1 <= guess.0 <= 9,
            guess.1 < 9,
            guess.2 < 9,
            self.at(guess.1 as int, guess.2 as int).offers(guess.0),
        ensures
            self.after_guess(guess).wf(),
            self.narrows_to(self.after_guess(guess)),
            self.after_guess(guess).weight() < self.weight(),
    {
        let (d, r, c) = guess;
        let p = self.put(r as int, c as int, Cell::Fixed(d));
        self.lemma_put(r as int, c as int, Cell::Fixed(d));
        p.lemma_settle_all();
        let g = p.settle_all();
        self.lemma_narrows_trans(p, g);
        self.lemma_narrows_weight(p);
        p.lemma_narrows_weight(g);
        assert(self.at(r as int, c as int) != p.at(r as int, c as int));
    }

    /// Where the search ends well the board is solved; where it reports a
    /// dead end the board is as it was. In every case the board stays well
    /// formed and is one that the board at the start narrows to.
    pub proof fn lemma_attempts(self, opts: Seq<(usize, usize, usize)>, i: int)
        requires
            self.wf(),
            self.open_to(opts),
            0 <= i,
        ensures
            self.attempts(opts, i).0.wf(),
            self.narrows_to(self.attempts(opts, i).0),
            self.attempts(opts, i).1 is Ok ==> self.attempts(opts, i).0.solved(),
            self.attempts(opts, i).1 == Err::<(), Seq<char>>(dead_end()) ==> self.attempts(opts, i).0
                == self,
        decreases self.weight(), opts.len() - i,
    {
        self.lemma_narrows_refl();
        if i < opts.len() {
            self.lemma_after_guess(opts[i]);
            let g = self.after_guess(opts[i]);
            if g.vacant() {
                g.lemma_options();
                g.lemma_attempts(g.options(), 0);
                let deeper = g.attempts(g.options(), 0);
                if deeper.1 is Ok {
                    self.lemma_narrows_trans(g, deeper.0);
                } else {
                    self.lemma_attempts(opts, i + 1);
                }
            } else {
                lemma_verdict_solved(g);
                match g.verdict() {
                    Some(true) => {},
                    Some(false) => {
                        self.lemma_attempts(opts, i + 1);
                    },
                    None => {
                        lemma_fault_text(g);
                    },
                }
            }
        }
    }
}

/// The validator's messages differ from the message of a dead end.
pub proof fn lemma_fault_text(b: Board)
    ensures
        b.fault() != dead_end(),
{
    reveal_strlit("not found path");
    reveal_strlit("check_row");
    reveal_strlit("check_block");
    assert("not found path"@.len() == 14);
    assert("check_row"@.len() == 9);
    assert("check_block"@.len() == 11);
}

impl SudokuSolver {
    /// The guesses to try next: the candidates of the open cell with the
    /// fewest candidates (the first such cell, row by row), in ascending
    /// order, each with the cell's row and column.
    pub fn pickup_elem(&self) -> (elems: Vec<(usize, usize, usize)>)
        requires
            self.wf(),
        ensures
            elems@ == self@.options(),
            match self@.pick(81) {
                Some(k) => self@.least_open(k),
                None => !self@.vacant() && elems@.len() == 0,
            },
    {
        proof {
            self@.lemma_pick(81);
            self@.lemma_options();
        }
        let mut found = false;
        let mut best: usize = 0;
        let mut least: usize = 0;
        let mut n: usize = 0;
        while n < 81
            invariant
                n <= 81,
                self.wf(),
                found ==> self@.pick(n as int) == Some(best as int) && best < n && least == self@.nth(
                    best as int,
                ).candidates().len(),
                !found ==> self@.pick(n as int) is None,
            decreases 81 - n,
        {
            let x = n / 9;
            let y = n % 9;
            assert(self@.nth(n as int) == self@.at(x as int, y as int));
            assert(self@.at(x as int, y as int).valid());
            match &self.field[x][y] {
                FieldElement::SUG(set) => {
                    let len = set.len();
                    if !found || len < least {
                        found = true;
                        best = n;
                        least = len;
                    }
                },
                FieldElement::NUM(_) => {},
            }
            n += 1;
        }
        let mut elems: Vec<(usize, usize, usize)> = Vec::new();
        if !found {
            return elems;
        }
        let x = best / 9;
        let y = best % 9;
        proof {
            self@.lemma_pick(81);
            assert(self@.nth(best as int) == self@.at(x as int, y as int));
        }
        let mut d: usize = 1;
        while d <= 9
            invariant
                1 <= d <= 10,
                x < 9,
                y < 9,
                self.wf(),
                self@.at(x as int, y as int) is Candidates,
                elems@ == guesses(self@.at(x as int, y as int).candidates(), x, y, d - 1),
            decreases 10 - d,
        {
            if self.field[x][y].offers(d) {
                elems.push((d, x, y));
            }
            d += 1;
        }
        elems
    }

    /// Runs rounds of propagation until one of them changes no cell.
    pub fn propagate(&mut self)
        requires
            old(self).wf(),
        ensures
            final(self)@ == old(self)@.settle_all(),
            final(self).wf(),
    {
        loop
            invariant
                self.wf(),
                self@.settle_all() == old(self)@.settle_all(),
            decreases self@.weight(),
        {
            let ghost before = self@;
            proof {
                before.lemma_round();
                before.lemma_narrows_weight(before.round());
            }
            if !self.num_search() {
                return ;
            }
        }
    }

    /// The backtracking search. Tries the guesses of the board in order,
    /// each on the board as it stands: the guess is made and propagated,
    /// and what remains is searched in the same way. A failed guess is undone
    /// by going back to a copy taken before it.
    ///
    /// Ends well on a solved board. Reports a dead end, with the board as it
    /// was, when every guess has failed; reports the validator's error, with
    /// the board as the guess left it, when a guess fills the board
    /// inconsistently.
    pub fn dfs(&mut self) -> (r: PuzzleResult<()>)
        requires
            old(self).wf(),
        ensures
            final(self).wf(),
            (final(self)@, ending(r)) == old(self)@.attempts(old(self)@.options(), 0),
        decreases old(self)@.weight(),
    {
        let ghost start = self@;
        let elems = self.pickup_elem();
        let ghost opts = elems@;
        proof {
            start.lemma_options();
        }
        let mut i: usize = 0;
        while i < elems.len()
            invariant
                i <= elems.len(),
                opts == elems@,
                opts == start.options(),
                start.wf(),
                start == old(self)@,
                start.open_to(opts),
                self.wf(),
                self@ == start,
                start.attempts(opts, 0) == start.attempts(opts, i as int),
            decreases elems.len() - i,
        {
            let clone = self.clone();
            let elem = elems[i];
            proof {
                assert(opts[i as int] == elem);
                start.lemma_after_guess(elem);
            }
            self.set(elem);
            self.propagate();
            let ghost g = self@;
            proof {
                assert(g == start.after_guess(opts[i as int]));
                g.lemma_options();
            }
            if self.is_vacant() {
                match self.dfs() {
                    Ok(x) => {
                        return Ok(x);
                    },
                    Err(_) => {
                        *self = clone;
                    },
                }
            } else {
                match self.validate() {
                    Err(e) => {
                        return Err(e);
                    },
                    Ok(true) => {
                        return Ok(());
                    },
                    Ok(false) => {
                        *self = clone;
                    },
                }
            }
            i += 1;
        }
        Err(PuzzleError::new("not found path"))
    }
}

impl Board {
    /// What one step of the solver makes of the board, and how it ends: a
    /// round of propagation; where that changes no cell, the backtracking
    /// search if a cell is open, else the validator's word on the full board.
    pub open spec fn step(self) -> (Board, Result<(), Seq<char>>) {
        let next = self.round();
        if !self.same_cells(next) {
            (next, Ok(()))
        } else if next.vacant() {
            next.attempts(next.options(), 0)
        } else {
            match next.verdict() {
                None => (next, Err(next.fault())),
                _ => (next, Ok(())),
            }
        }
    }

    /// What the solver makes of the board, and how it ends: steps are taken
    /// until the validator finds the board solved, or finds it inconsistent,
    /// or a step fails.
    pub open spec fn solve(self) -> (Board, Result<(), Seq<char>>)
        decreases self.weight(),
        when self.wf()
        via Self::solve_decreases
    {
        match self.verdict() {
            None => (self, Err(self.fault())),
            Some(true) => (self, Ok(())),
            Some(false) => if self.step().1 is Ok {
                self.step().0.solve()
            } else {
                self.step()
            },
        }
    }

    #[via_fn]
    /// A step that ends well on an unfinished board lowers the weight.
    proof fn solve_decreases(self) {
        self.lemma_step();
    }

    /// A step keeps the board well formed and narrows it. A step that ends
    /// well on a board that the validator finds unfinished lowers its weight.
    pub proof fn lemma_step(self)
        requires
            self.wf(),
        ensures
            self.step().0.wf(),
            self.narrows_to(self.step().0),
            self.step().1 is Ok && self.verdict() == Some(false) ==> self.step().0.weight()
                < self.weight(),
    {
        let next = self.round();
        self.lemma_round();
        self.lemma_narrows_weight(next);
        if self.same_cells(next) {
            self.lemma_same_cells(next);
            lemma_verdict_same(self, next);
            if next.vacant() {
                next.lemma_options();
                next.lemma_attempts(next.options(), 0);
                let found = next.attempts(next.options(), 0);
                self.lemma_narrows_trans(next, found.0);
                if found.1 is Ok {
                    lemma_solved_full(found.0);
                    next.lemma_narrows_weight(found.0);
                    assert(!next.same_cells(found.0)) by {
                        let (r, c) = choose|r: int, c: int| inside(r, c) && #[trigger] next.at(r, c) is Candidates;
                        assert(found.0.at(r, c) is Fixed);
                    }
                }
            } else {
                if self.verdict() == Some(false) {
                    lemma_unfinished_vacant(next);
                }
            }
        }
    }

    /// A solver that ends well leaves a solved board: every row, column and
    /// block settled with nine different digits.
    pub proof fn lemma_solve(self)
        requires
            self.wf(),
        ensures
            self.solve().0.wf(),
            self.narrows_to(self.solve().0),
            self.solve().1 is Ok ==> self.solve().0.solved(),
        decreases self.weight(),
    {
        self.lemma_narrows_refl();
        lemma_verdict_solved(self);
        if self.verdict() == Some(false) {
            self.lemma_step();
            if self.step().1 is Ok {
                self.step().0.lemma_solve();
                self.lemma_narrows_trans(self.step().0, self.step().0.solve().0);
            }
        }
    }
}

impl Solver for SudokuSolver {
    /// The board has its shape and every cell is valid.
    open spec fn sound(&self) -> bool {
        self.wf()
    }

    /// The validator's verdict on the board.
    open spec fn finished(&self) -> Option<bool> {
        self@.verdict()
    }

    /// The weight of the board: what is still undecided.
    open spec fn budget(&self) -> nat {
        self@.weight()
    }

    /// Solves the puzzle: steps until the validator finds the board solved
    /// or inconsistent, or a step fails.
    fn run(&mut self) -> (r: Result<(), PuzzleError>)
        ensures
            (final(self)@, ending(r)) == old(self)@.solve(),
            r is Ok ==> final(self)@.solved(),
    {
        proof {
            old(self)@.lemma_solve();
        }
        loop
            invariant
                self.wf(),
                self@.solve() == old(self)@.solve(),
                old(self).finished() != Some(false) ==> *self == *old(self),
            decreases self@.weight(),
        {
            proof {
                self@.lemma_step();
            }
            match self.has_finished() {
                Err(e) => {
                    return Err(e);
                },
                Ok(true) => {
                    return Ok(());
                },
                Ok(false) => {},
            }
            match self.search() {
                Err(e) => {
                    return Err(e);
                },
                Ok(()) => {},
            }
        }
    }

    /// One step of the solver: a round of propagation; where that changes
    /// no cell, the backtracking search if a cell is open, else the
    /// validator's word on the full board.
    fn search(&mut self) -> (r: PuzzleResult<()>)
        ensures
            (final(self)@, ending(r)) == old(self)@.step(),
    {
        proof {
            old(self)@.lemma_step();
        }
        if self.num_search() {
            Ok(())
        } else if self.is_vacant() {
            self.dfs()
        } else {
            match self.validate() {
                Err(e) => Err(e),
                Ok(_) => Ok(()),
            }
        }
    }

    /// The validator: whether every row, column and block is settled with
    /// nine different digits. An error where a settled digit occurs twice on
    /// the first line that is not in order.
    fn has_finished(&self) -> (r: PuzzleResult<bool>)
        ensures
            outcome(r) == self@.verdict(),
            r is Ok && r->Ok_0 <==> self@.solved(),
            r matches Err(e) ==> e@ == self@.fault(),
    {
        self.validate()
    }
}

} // verus!
