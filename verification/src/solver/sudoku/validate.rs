//! The validator: is every row, column and block settled with nine
//! different digits?
use super::board::{position, SudokuSolver};
use super::cell::FieldElement;
use super::grid::{
    cell_of, digits, inside, lemma_line_geometry, lemma_nine_digits, Board, Cell, Line,
};
use crate::solver::{PuzzleError, PuzzleResult};
use rayon::iter::{IntoParallelIterator, ParallelIterator};
use vstd::prelude::*;
use vstd::seq_lib::*;
use vstd::set_lib::*;

verus! {

/// Two verdicts taken together: inconsistent where either is, else solved
/// where both are.
pub open spec fn join(a: Option<bool>, b: Option<bool>) -> Option<bool> {
    match (a, b) {
        (Some(x), Some(y)) => Some(x && y),
        _ => None,
    }
}

/// Joining verdicts is associative.
pub proof fn lemma_join_associative(a: Option<bool>, b: Option<bool>, c: Option<bool>)
    ensures
        join(join(a, b), c) == join(a, join(b, c)),
{
}

/// The verdict "solved" is neutral on both sides.
pub proof fn lemma_join_neutral(a: Option<bool>)
    ensures
        join(Some(true), a) == a,
        join(a, Some(true)) == a,
{
}

/// The verdict that a result carries: `None` stands for an error.
pub open spec fn outcome(r: PuzzleResult<bool>) -> Option<bool> {
    match r {
        Ok(done) => Some(done),
        Err(_) => None,
    }
}

/// The message with which a duplicate on a line of the given kind is reported.
pub open spec fn label(kind: Line) -> Seq<char> {
    match kind {
        Line::Row => "check_row"@,
        Line::Column => "check_row"@,
        Line::Block => "check_block"@,
    }
}

/// A check that reports an error reports it with the message of its kind.
pub open spec fn labelled(r: PuzzleResult<bool>, kind: Line) -> bool {
    r matches Err(e) ==> e@ == label(kind)
}

impl Board {
    /// The verdict on the first `n` cells of a line, read in order: the
    /// reading stops at the first open cell (`Some(false)`) or at the first
    /// settled digit that was met before (`None`).
    pub open spec fn scan(self, kind: Line, i: int, n: int) -> Option<bool>
        decreases n,
    {
        if n <= 0 {
            Some(true)
        } else {
            match self.scan(kind, i, n - 1) {
                Some(true) => match self.on(kind, i, n - 1) {
                    Cell::Candidates(_) => Some(false),
                    Cell::Fixed(d) => if self.met(kind, i, n - 1, d) {
                        None
                    } else {
                        Some(true)
                    },
                },
                done => done,
            }
        }
    }

    /// One of the first `n` cells of the line is settled as `d`.
    pub open spec fn met(self, kind: Line, i: int, n: int, d: usize) -> bool {
        exists|j: int| 0 <= j < n && #[trigger] self.on(kind, i, j) == Cell::Fixed(d)
    }

    /// The verdicts on the first `n` lines of one kind, joined.
    pub open spec fn check(self, kind: Line, n: int) -> Option<bool>
        decreases n,
    {
        if n <= 0 {
            Some(true)
        } else {
            join(self.check(kind, n - 1), self.scan(kind, n - 1, 9))
        }
    }

    /// The message with which an inconsistent board is reported: that of the
    /// first kind of line, in the order rows, columns, blocks, on which a
    /// duplicate is found.
    pub open spec fn fault(self) -> Seq<char> {
        if self.check(Line::Row, 9) is None {
            label(Line::Row)
        } else if self.check(Line::Column, 9) is None {
            label(Line::Column)
        } else {
            label(Line::Block)
        }
    }

    /// Line `i` of the given kind is settled throughout, with no digit twice.
    pub open spec fn line_complete(self, kind: Line, i: int) -> bool {
        &&& forall|k: int| 0 <= k < 9 ==> #[trigger] self.on(kind, i, k) is Fixed
        &&& forall|j: int, k: int|
            0 <= j < k < 9 ==> #[trigger] self.on(kind, i, j) != #[trigger] self.on(kind, i, k)
    }

    /// Every row, every column and every block is settled with nine different digits.
    pub open spec fn solved(self) -> bool {
        forall|kind: Line, i: int| 0 <= i < 9 ==> #[trigger] self.line_complete(kind, i)
    }

    /// The verdict on the whole board: rows first, then columns, then
    /// blocks; the first verdict that is not "solved" stands.
    pub open spec fn verdict(self) -> Option<bool> {
        match self.check(Line::Row, 9) {
            Some(true) => match self.check(Line::Column, 9) {
                Some(true) => self.check(Line::Block, 9),
                other => other,
            },
            other => other,
        }
    }
}

/// What a line reports that met no duplicate and no open cell.
pub fn all_clear() -> (r: PuzzleResult<bool>)
    ensures
        r == Ok::<bool, PuzzleError>(true),
{
    Ok(true)
}

/// Joins the reports on two groups of lines: the first error stands, else
/// both must have found their lines settled.
pub fn join_results(a: PuzzleResult<bool>, b: PuzzleResult<bool>) -> (r: PuzzleResult<bool>)
    ensures
        outcome(r) == join(outcome(a), outcome(b)),
        r matches Err(e) ==> (a matches Err(x) && e@ == x@) || (b matches Err(y) && e@ == y@),
{
    match a {
        Err(e) => Err(e),
        Ok(x) => match b {
            Err(e) => Err(e),
            Ok(y) => Ok(x && y),
        },
    }
}

impl SudokuSolver {
    /// Reads line `i` of the given kind cell by cell: an error at the first
    /// settled digit that occurs twice, `Ok(false)` at the first open cell,
    /// `Ok(true)` where neither is met.
    pub fn line_check(&self, kind: Line, i: usize) -> (r: PuzzleResult<bool>)
        requires
            self.wf(),
            i < 9,
        ensures
            outcome(r) == self@.scan(kind, i as int, 9),
            labelled(r, kind),
    {
        let mut flags = [false;9];
        let mut k: usize = 0;
        while k < 9
            invariant
                k <= 9,
                i < 9,
                self.wf(),
                self@.scan(kind, i as int, k as int) == Some(true),
                forall|d: usize|
                    1 <= d <= 9 ==> (#[trigger] flags[d - 1] <==> self@.met(kind, i as int, k as int, d)),
            decreases 9 - k,
        {
            let (r, c) = position(kind, i, k);
            let ghost cell = self@.on(kind, i as int, k as int);
            assert(cell == self@.at(r as int, c as int));
            assert(cell.valid());
            match &self.field[r][c] {
                FieldElement::NUM(n) => {
                    let n = *n - 1;
                    if flags[n] {
                        proof {
                            assert(self@.met(kind, i as int, k as int, (n + 1) as usize));
                            assert(self@.scan(kind, i as int, k + 1) is None);
                            lemma_scan_stops(self@, kind, i as int, k + 1, 9);
                        }
                        return Err(
                            PuzzleError::new(
                                match kind {
                                    Line::Row => "check_row",
                                    Line::Column => "check_row",
                                    Line::Block => "check_block",
                                },
                            ),
                        );
                    }
                    flags[n] = true;
                    proof {
                        let e = (n + 1) as usize;
                        assert forall|d: usize| 1 <= d <= 9 implies (#[trigger] flags[d - 1]
                            <==> self@.met(kind, i as int, k + 1, d)) by {
                            if d == e {
                                assert(self@.on(kind, i as int, k as int) == Cell::Fixed(d));
                            } else {
                                if self@.met(kind, i as int, k + 1, d) {
                                    let j = choose|j: int|
                                        0 <= j < k + 1 && #[trigger] self@.on(kind, i as int, j)
                                            == Cell::Fixed(d);
                                    assert(j < k);
                                }
                                if self@.met(kind, i as int, k as int, d) {
                                    let j = choose|j: int|
                                        0 <= j < k && #[trigger] self@.on(kind, i as int, j)
                                            == Cell::Fixed(d);
                                    assert(self@.on(kind, i as int, j) == Cell::Fixed(d));
                                }
                            }
                        }
                    }
                },
                FieldElement::SUG(_) => {
                    proof {
                        assert(self@.scan(kind, i as int, k + 1) == Some(false));
                        lemma_scan_stops(self@, kind, i as int, k + 1, 9);
                    }
                    return Ok(false);
                },
            }
            k += 1;
        }
        Ok(true)
    }
}

/// Once the reading of a line has stopped, reading on changes nothing.
pub proof fn lemma_scan_stops(b: Board, kind: Line, i: int, n: int, m: int)
    requires
        0 <= n <= m,
        b.scan(kind, i, n) != Some(true),
    ensures
        b.scan(kind, i, m) == b.scan(kind, i, n),
    decreases m - n,
{
    if n < m {
        lemma_scan_stops(b, kind, i, n, m - 1);
    }
}

impl SudokuSolver {
    /// Checks the first `n` lines of one kind in parallel and joins what
    /// they report.
    ///
    /// The body is `rayon`'s `into_par_iter().map(..).reduce(..)` over the
    /// line numbers, with `line_check` as the mapped function, `all_clear` as
    /// the identity and `join_results` as the operator. `reduce` is
    /// documented to combine the items in their order, grouped in an
    /// unspecified way, with the identity inserted wherever it likes; since
    /// joining is associative with "solved" as its neutral verdict
    /// (`lemma_join_associative`, `lemma_join_neutral`), the contract takes
    /// the result to be the join of the lines' verdicts in order. Every error
    /// a line of this kind reports carries the kind's message, so the joined
    /// error does.
    #[verifier::external_body]
    fn par_check(&self, kind: Line, n: usize) -> (r: PuzzleResult<bool>)
        requires
            self.wf(),
            n <= 9,
        ensures
            outcome(r) == self@.check(kind, n as int),
            labelled(r, kind),
    {
        (0..n).into_par_iter().map(|i| self.line_check(kind, i)).reduce(all_clear, join_results)
    }

    /// Whether every row is settled with nine different digits; an error
    /// where a row holds a settled digit twice.
    pub fn check_row(&self) -> (r: PuzzleResult<bool>)
        requires
            self.wf(),
        ensures
            outcome(r) == self@.check(Line::Row, 9),
            labelled(r, Line::Row),
    {
        self.par_check(Line::Row, 9)
    }

    /// Whether every column is settled with nine different digits; an error
    /// where a column holds a settled digit twice.
    pub fn check_column(&self) -> (r: PuzzleResult<bool>)
        requires
            self.wf(),
        ensures
            outcome(r) == self@.check(Line::Column, 9),
            labelled(r, Line::Column),
    {
        self.par_check(Line::Column, 9)
    }

    /// Whether every block is settled with nine different digits; an error
    /// where a block holds a settled digit twice.
    pub fn check_block(&self) -> (r: PuzzleResult<bool>)
        requires
            self.wf(),
        ensures
            outcome(r) == self@.check(Line::Block, 9),
            labelled(r, Line::Block),
    {
        self.par_check(Line::Block, 9)
    }

    /// The validator: rows, then columns, then blocks. `Ok(true)` where the
    /// board is solved, `Ok(false)` where the first shortcoming found is an
    /// open cell, an error where it is a digit that occurs twice.
    pub fn validate(&self) -> (r: PuzzleResult<bool>)
        requires
            self.wf(),
        ensures
            outcome(r) == self@.verdict(),
            r is Ok && r->Ok_0 <==> self@.solved(),
            r matches Err(e) ==> e@ == self@.fault(),
    {
        proof {
            lemma_verdict_solved(self@);
        }
        match self.check_row() {
            Err(e) => Err(e),
            Ok(false) => Ok(false),
            Ok(true) => match self.check_column() {
                Err(e) => Err(e),
                Ok(false) => Ok(false),
                Ok(true) => self.check_block(),
            },
        }
    }
}

/// The reading of a line finds nothing amiss exactly when the cells read are
/// all settled and no two of them alike.
pub proof fn lemma_scan_clear(b: Board, kind: Line, i: int, n: int)
    requires
        0 <= n <= 9,
    ensures
        b.scan(kind, i, n) == Some(true) <==> (forall|k: int|
            0 <= k < n ==> #[trigger] b.on(kind, i, k) is Fixed) && (forall|j: int, k: int|
            0 <= j < k < n ==> #[trigger] b.on(kind, i, j) != #[trigger] b.on(kind, i, k)),
    decreases n,
{
    if n > 0 {
        lemma_scan_clear(b, kind, i, n - 1);
        let last = b.on(kind, i, n - 1);
        if b.scan(kind, i, n) == Some(true) {
            assert(last is Fixed);
            assert forall|j: int, k: int| 0 <= j < k < n implies #[trigger] b.on(kind, i, j)
                != #[trigger] b.on(kind, i, k) by {
                if k == n - 1 {
                    if b.on(kind, i, j) == last {
                        assert(b.met(kind, i, n - 1, last->Fixed_0));
                    }
                }
            }
        }
        if (forall|k: int| 0 <= k < n ==> #[trigger] b.on(kind, i, k) is Fixed) && (forall|
            j: int,
            k: int,
        | 0 <= j < k < n ==> #[trigger] b.on(kind, i, j) != #[trigger] b.on(kind, i, k)) {
            assert(last is Fixed);
            if b.met(kind, i, n - 1, last->Fixed_0) {
                let j = choose|j: int|
                    0 <= j < n - 1 && #[trigger] b.on(kind, i, j) == Cell::Fixed(last->Fixed_0);
                assert(b.on(kind, i, j) != b.on(kind, i, n - 1));
            }
        }
    }
}

/// The joined verdict on some lines is "solved" exactly when each line's is.
pub proof fn lemma_check_clear(b: Board, kind: Line, n: int)
    requires
        0 <= n <= 9,
    ensures
        b.check(kind, n) == Some(true) <==> forall|i: int|
            0 <= i < n ==> #[trigger] b.line_complete(kind, i),
    decreases n,
{
    if n > 0 {
        lemma_check_clear(b, kind, n - 1);
        lemma_scan_clear(b, kind, n - 1, 9);
        if b.check(kind, n) == Some(true) {
            assert(b.line_complete(kind, n - 1));
        }
        if forall|i: int| 0 <= i < n ==> #[trigger] b.line_complete(kind, i) {
            assert(b.line_complete(kind, n - 1));
        }
    }
}

/// The validator reports "solved" exactly of the boards whose every row,
/// column and block is settled with nine different digits.
pub proof fn lemma_verdict_solved(b: Board)
    ensures
        b.verdict() == Some(true) <==> b.solved(),
{
    lemma_check_clear(b, Line::Row, 9);
    lemma_check_clear(b, Line::Column, 9);
    lemma_check_clear(b, Line::Block, 9);
    if b.verdict() == Some(true) {
        assert forall|kind: Line, i: int| 0 <= i < 9 implies #[trigger] b.line_complete(kind, i) by {
            match kind {
                Line::Row => {},
                Line::Column => {},
                Line::Block => {},
            }
        }
    }
    if b.solved() {
        assert(forall|i: int| 0 <= i < 9 ==> #[trigger] b.line_complete(Line::Row, i));
        assert(forall|i: int| 0 <= i < 9 ==> #[trigger] b.line_complete(Line::Column, i));
        assert(forall|i: int| 0 <= i < 9 ==> #[trigger] b.line_complete(Line::Block, i));
    }
}

/// A settled line of a well-formed board with no digit twice is a
/// permutation of 1..=9: each digit stands at some place of the line.
pub proof fn lemma_line_permutation(b: Board, kind: Line, i: int, d: usize)
    requires
        b.wf(),
        0 <= i < 9,
        b.line_complete(kind, i),
        1 <= d <= 9,
    ensures
        exists|k: int| 0 <= k < 9 && #[trigger] b.on(kind, i, k) == Cell::Fixed(d),
{
    let vals = Seq::new(9, |k: int| b.on(kind, i, k)->Fixed_0);
    lemma_line_geometry(kind, i);
    assert forall|j: int, k: int| 0 <= j < vals.len() && 0 <= k < vals.len() && j != k implies vals[j]
        != vals[k] by {
        assert(b.on(kind, i, j) is Fixed && b.on(kind, i, k) is Fixed);
        if j < k {
            assert(b.on(kind, i, j) != b.on(kind, i, k));
        } else {
            assert(b.on(kind, i, k) != b.on(kind, i, j));
        }
    }
    vals.unique_seq_to_set();
    lemma_nine_digits();
    assert(vals.to_set().subset_of(digits())) by {
        assert forall|e: usize| vals.to_set().contains(e) implies digits().contains(e) by {
            let k = choose|k: int| 0 <= k < vals.len() && vals[k] == e;
            let (r, c) = cell_of(kind, i, k);
            assert(inside(r, c));
            assert(b.at(r, c).valid());
            assert(b.on(kind, i, k) is Fixed);
        }
    }
    lemma_len_subset(vals.to_set(), digits());
    lemma_subset_equality(vals.to_set(), digits());
    assert(vals.to_set().contains(d));
    let k = choose|k: int| 0 <= k < vals.len() && vals[k] == d;
    assert(b.on(kind, i, k) is Fixed);
    assert(b.on(kind, i, k) == Cell::Fixed(d));
}

/// A board that holds the same settled digit twice in one row is never
/// reported as solved.
pub proof fn lemma_twice_in_row_unsolved(b: Board, r: int, c1: int, c2: int, d: usize)
    requires
        inside(r, c1),
        inside(r, c2),
        c1 != c2,
        b.at(r, c1) == Cell::Fixed(d),
        b.at(r, c2) == Cell::Fixed(d),
    ensures
        b.verdict() != Some(true),
        !b.solved(),
{
    lemma_verdict_solved(b);
    if b.solved() {
        assert(b.line_complete(Line::Row, r));
        if c1 < c2 {
            assert(b.on(Line::Row, r, c1) != b.on(Line::Row, r, c2));
        } else {
            assert(b.on(Line::Row, r, c2) != b.on(Line::Row, r, c1));
        }
    }
}

/// The first `n` lines of a kind get the same verdict on boards with the same cells.
pub proof fn lemma_check_same(a: Board, b: Board, kind: Line, n: int)
    requires
        a.cells == b.cells,
    ensures
        a.check(kind, n) == b.check(kind, n),
    decreases n,
{
    if n > 0 {
        lemma_check_same(a, b, kind, n - 1);
        lemma_scan_same(a, b, kind, n - 1, 9);
    }
}

/// A line is read alike on boards with the same cells.
pub proof fn lemma_scan_same(a: Board, b: Board, kind: Line, i: int, n: int)
    requires
        a.cells == b.cells,
    ensures
        a.scan(kind, i, n) == b.scan(kind, i, n),
    decreases n,
{
    if n > 0 {
        lemma_scan_same(a, b, kind, i, n - 1);
        assert(forall|j: int| a.on(kind, i, j) == b.on(kind, i, j));
        match a.on(kind, i, n - 1) {
            Cell::Fixed(d) => {
                if a.met(kind, i, n - 1, d) {
                    let j = choose|j: int| 0 <= j < n - 1 && #[trigger] a.on(kind, i, j) == Cell::Fixed(d);
                    assert(b.on(kind, i, j) == Cell::Fixed(d));
                }
                if b.met(kind, i, n - 1, d) {
                    let j = choose|j: int| 0 <= j < n - 1 && #[trigger] b.on(kind, i, j) == Cell::Fixed(d);
                    assert(a.on(kind, i, j) == Cell::Fixed(d));
                }
            },
            Cell::Candidates(_) => {},
        }
    }
}

/// The validator looks at the cells only.
pub proof fn lemma_verdict_same(a: Board, b: Board)
    requires
        a.cells == b.cells,
    ensures
        a.verdict() == b.verdict(),
        a.fault() == b.fault(),
{
    lemma_check_same(a, b, Line::Row, 9);
    lemma_check_same(a, b, Line::Column, 9);
    lemma_check_same(a, b, Line::Block, 9);
}

/// A line on which the reading stops at an open cell holds an open cell.
pub proof fn lemma_scan_open(b: Board, kind: Line, i: int, n: int)
    requires
        0 <= i < 9,
        0 <= n <= 9,
        b.scan(kind, i, n) == Some(false),
    ensures
        b.vacant(),
    decreases n,
{
    if n > 0 {
        if b.scan(kind, i, n - 1) == Some(false) {
            lemma_scan_open(b, kind, i, n - 1);
        } else {
            lemma_line_geometry(kind, i);
            let (r, c) = cell_of(kind, i, n - 1);
            assert(inside(r, c) && b.at(r, c) is Candidates);
        }
    }
}

/// Lines that are found unsettled hold an open cell.
pub proof fn lemma_check_open(b: Board, kind: Line, n: int)
    requires
        0 <= n <= 9,
        b.check(kind, n) == Some(false),
    ensures
        b.vacant(),
    decreases n,
{
    if n > 0 {
        if b.check(kind, n - 1) == Some(false) {
            lemma_check_open(b, kind, n - 1);
        } else {
            lemma_scan_open(b, kind, n - 1, 9);
        }
    }
}

/// A board that the validator finds unfinished holds an open cell.
pub proof fn lemma_unfinished_vacant(b: Board)
    requires
        b.verdict() == Some(false),
    ensures
        b.vacant(),
{
    if b.check(Line::Row, 9) == Some(false) {
        lemma_check_open(b, Line::Row, 9);
    } else if b.check(Line::Column, 9) == Some(false) {
        lemma_check_open(b, Line::Column, 9);
    } else {
        lemma_check_open(b, Line::Block, 9);
    }
}

/// A solved board holds no open cell.
pub proof fn lemma_solved_full(b: Board)
    requires
        b.solved(),
    ensures
        !b.vacant(),
{
    if b.vacant() {
        let (r, c) = choose|r: int, c: int| inside(r, c) && #[trigger] b.at(r, c) is Candidates;
        assert(b.line_complete(Line::Row, r));
        assert(b.on(Line::Row, r, c) is Fixed);
    }
}

} // verus!
