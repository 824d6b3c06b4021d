//! The executable board.
use super::cell::{all_digits, digit_text, FieldElement};
use super::grid::{
    block_of, board_from, cell_from, cell_of, inside, lemma_board_from, lemma_cell_without,
    puzzle_char, puzzle_text, Board, Cell, Line,
};
use crate::solver::PuzzleError;
use std::collections::BTreeSet;
use vstd::prelude::*;
use vstd::string::*;

verus! {

/// A Sudoku board in the making: 81 cells, and for each line and digit the
/// record that the line has been cleared of that digit.
#[derive(Debug)]
pub struct SudokuSolver {
    pub field: Vec<Vec<FieldElement>>,
    pub(crate) row_cache: [[bool; 9]; 9],
    pub(crate) col_cache: [[bool; 9]; 9],
    pub(crate) block_cache: [[bool; 9]; 9],
}

impl View for SudokuSolver {
    type V = Board;

    open(crate) spec fn view(&self) -> Board {
        Board {
            cells: Seq::new(
                self.field@.len(),
                |r: int| Seq::new(self.field@[r]@.len(), |c: int| self.field@[r]@[c]@),
            ),
            rows: Seq::new(9, |i: int| self.row_cache@[i]@),
            cols: Seq::new(9, |i: int| self.col_cache@[i]@),
            blocks: Seq::new(9, |i: int| self.block_cache@[i]@),
        }
    }
}

/// The lines of a puzzle as sequences of characters.
pub open spec fn text_of(lines: Seq<&str>) -> Seq<Seq<char>> {
    Seq::new(lines.len(), |r: int| lines[r]@)
}

/// Reads one line of a puzzle text; `None` where it is not nine puzzle characters.
fn read_line(line: &str) -> (row: Option<Vec<FieldElement>>)
    ensures
        match row {
            Some(v) => line@.len() == 9 && v@.len() == 9 && forall|c: int|
                0 <= c < 9 ==> puzzle_char(#[trigger] line@[c]) && v@[c]@ == cell_from(line@[c]),
            None => line@.len() != 9 || exists|c: int| 0 <= c < 9 && !puzzle_char(#[trigger] line@[c]),
        },
{
    if line.unicode_len() != 9 {
        return None;
    }
    let mut row: Vec<FieldElement> = Vec::new();
    let mut c: usize = 0;
    while c < 9
        invariant
            c <= 9,
            line@.len() == 9,
            row@.len() == c,
            forall|k: int|
                0 <= k < c ==> puzzle_char(#[trigger] line@[k]) && row@[k]@ == cell_from(line@[k]),
        decreases 9 - c,
    {
        let ch = line.get_char(c);
        let code = ch as u32;
        if code == 42 || code == 48 {
            row.push(FieldElement::SUG(all_digits()));
        } else if 49 <= code && code <= 57 {
            row.push(FieldElement::NUM((code - 48) as usize));
        } else {
            assert(!puzzle_char(line@[c as int]));
            return None;
        }
        c += 1;
    }
    Some(row)
}

impl SudokuSolver {
    /// The board as text: nine lines of nine digits, each line closed by a
    /// line feed; a settled cell shows its digit, an open cell shows `0`.
    pub fn render(&self) -> (s: String)
        requires
            self.wf(),
        ensures
            s@ == self@.text(81),
    {
        let mut s = String::new();
        let mut n: usize = 0;
        while n < 81
            invariant
                n <= 81,
                self.wf(),
                s@ == self@.text(n as int),
            decreases 81 - n,
        {
            let x = n / 9;
            let y = n % 9;
            assert(self@.nth(n as int) == self@.at(x as int, y as int));
            assert(self@.at(x as int, y as int).valid());
            let d = self.field[x][y].digit();
            s.append(digit_text(d));
            if y == 8 {
                proof {
                    reveal_strlit("\n");
                }
                s.append("\n");
            }
            assert(s@ =~= self@.text(n + 1));
            n += 1;
        }
        s
    }

    /// The board has its shape and every cell is valid.
    pub open spec fn wf(&self) -> bool {
        self@.wf()
    }

    /// Builds the board that nine lines of nine characters describe: a digit
    /// from 1 to 9 settles its cell, `0` or `*` leaves it open to every
    /// digit. Any other text is refused.
    pub fn new(string: Vec<&str>) -> (r: Result<Self, PuzzleError>)
        ensures
            match r {
                Ok(solver) => puzzle_text(text_of(string@)) && solver@ == board_from(text_of(string@))
                    && solver.wf(),
                Err(e) => !puzzle_text(text_of(string@)) && e@ == "invalid data"@,
            },
    {
        let ghost text = text_of(string@);
        if string.len() != 9 {
            return Err(PuzzleError::new("invalid data"));
        }
        let mut field: Vec<Vec<FieldElement>> = Vec::new();
        let mut r: usize = 0;
        while r < 9
            invariant
                r <= 9,
                string@.len() == 9,
                text == text_of(string@),
                field@.len() == r,
                forall|x: int| 0 <= x < r ==> (#[trigger] text[x]).len() == 9 && field@[x]@.len() == 9,
                forall|x: int, y: int|
                    0 <= x < r && 0 <= y < 9 ==> puzzle_char(#[trigger] text[x][y]) && field@[x]@[y]@
                        == cell_from(text[x][y]),
            decreases 9 - r,
        {
            match read_line(string[r]) {
                None => {
                    proof {
                        if text[r as int].len() == 9 {
                            let c = choose|c: int| 0 <= c < 9 && !puzzle_char(#[trigger] string@[r as int]@[c]);
                            assert(inside(r as int, c));
                            assert(!puzzle_char(text[r as int][c]));
                        }
                    }
                    return Err(PuzzleError::new("invalid data"));
                },
                Some(row) => {
                    field.push(row);
                },
            }
            r += 1;
        }
        let solver = SudokuSolver {
            field,
            row_cache: [[false;9];9],
            col_cache: [[false;9];9],
            block_cache: [[false;9];9],
        };
        proof {
            lemma_board_from(text);
            let b = board_from(text);
            assert(solver@.cells =~~= b.cells) by {
                assert forall|x: int| 0 <= x < 9 implies #[trigger] solver@.cells[x] =~~= b.cells[x] by {
                    assert(text[x].len() == 9);
                    assert forall|y: int| 0 <= y < 9 implies #[trigger] solver@.cells[x][y]
                        == b.cells[x][y] by {
                        assert(puzzle_char(text[x][y]));
                    }
                }
            }
            assert(solver@.rows =~~= b.rows);
            assert(solver@.cols =~~= b.cols);
            assert(solver@.blocks =~~= b.blocks);
        }
        Ok(solver)
    }

    /// Settles the cell at (`x`, `y`) on the digit `val`.
    pub fn set(&mut self, elem: (usize, usize, usize))
        requires
            old(self).wf(),
            1 <= elem.0 <= 9,
            elem.1 < 9,
            elem.2 < 9,
        ensures
            final(self)@ == old(self)@.put(elem.1 as int, elem.2 as int, Cell::Fixed(elem.0)),
            final(self).wf(),
    {
        let (val, x, y) = elem;
        assert(old(self)@.cells[x as int].len() == 9);
        self.field[x][y] = FieldElement::NUM(val);
        proof {
            old(self)@.lemma_put(x as int, y as int, Cell::Fixed(val));
            assert(self@.cells =~~= old(self)@.put(x as int, y as int, Cell::Fixed(val)).cells);
            assert(self@.rows =~~= old(self)@.rows);
            assert(self@.cols =~~= old(self)@.cols);
            assert(self@.blocks =~~= old(self)@.blocks);
        }
    }

    /// Whether some cell is still open.
    pub fn is_vacant(&self) -> (r: bool)
        requires
            self.wf(),
        ensures
            r == self@.vacant(),
    {
        let mut x: usize = 0;
        while x < 9
            invariant
                x <= 9,
                self.wf(),
                forall|r: int, c: int| 0 <= r < x && 0 <= c < 9 ==> #[trigger] self@.at(r, c) is Fixed,
            decreases 9 - x,
        {
            let mut y: usize = 0;
            while y < 9
                invariant
                    y <= 9,
                    x < 9,
                    self.wf(),
                    forall|r: int, c: int|
                        0 <= r < x && 0 <= c < 9 ==> #[trigger] self@.at(r, c) is Fixed,
                    forall|c: int| 0 <= c < y ==> #[trigger] self@.at(x as int, c) is Fixed,
                decreases 9 - y,
            {
                match &self.field[x][y] {
                    FieldElement::NUM(_) => {},
                    FieldElement::SUG(_) => {
                        assert(inside(x as int, y as int) && self@.at(x as int, y as int) is Candidates);
                        return true;
                    },
                }
                y += 1;
            }
            x += 1;
        }
        false
    }
}

impl Clone for SudokuSolver {
    /// A copy that shares nothing with the board it is taken from: every
    /// cell is copied.
    fn clone(&self) -> (res: Self)
        ensures
            res@ == self@,
    {
        let mut field: Vec<Vec<FieldElement>> = Vec::new();
        let mut r: usize = 0;
        while r < self.field.len()
            invariant
                r <= self.field.len(),
                field@.len() == r,
                forall|x: int| 0 <= x < r ==> (#[trigger] field@[x])@.len() == self.field@[x]@.len(),
                forall|x: int, y: int|
                    0 <= x < r && 0 <= y < self.field@[x]@.len() ==> (#[trigger] field@[x]@[y])@
                        == self.field@[x]@[y]@,
            decreases self.field.len() - r,
        {
            let mut row: Vec<FieldElement> = Vec::new();
            let mut c: usize = 0;
            while c < self.field[r].len()
                invariant
                    r < self.field.len(),
                    c <= self.field@[r as int]@.len(),
                    row@.len() == c,
                    forall|y: int| 0 <= y < c ==> (#[trigger] row@[y])@ == self.field@[r as int]@[y]@,
                decreases self.field@[r as int]@.len() - c,
            {
                row.push(self.field[r][c].clone());
                c += 1;
            }
            field.push(row);
            r += 1;
        }
        let res = SudokuSolver {
            field,
            row_cache: self.row_cache,
            col_cache: self.col_cache,
            block_cache: self.block_cache,
        };
        proof {
            assert(res@.cells =~~= self@.cells);
            assert(res@.rows =~~= self@.rows);
            assert(res@.cols =~~= self@.cols);
            assert(res@.blocks =~~= self@.blocks);
        }
        res
    }
}

/// Index of the block that holds the cell at (`x`, `y`).
pub fn xy_to_block_ind(x: usize, y: usize) -> (b: usize)
    requires
        x < 9,
        y < 9,
    ensures
        b == block_of(x as int, y as int),
        b < 9,
{
    (x / 3) * 3 + y / 3
}

/// Row and column of the `k`-th cell of line `i` of the given kind.
pub fn position(kind: Line, i: usize, k: usize) -> (p: (usize, usize))
    requires
        i < 9,
        k < 9,
    ensures
        (p.0 as int, p.1 as int) == cell_of(kind, i as int, k as int),
        p.0 < 9,
        p.1 < 9,
{
    match kind {
        Line::Row => (i, k),
        Line::Column => (k, i),
        Line::Block => ((i / 3) * 3 + k / 3, (i % 3) * 3 + k % 3),
    }
}

impl SudokuSolver {
    /// Strikes `d` from the candidates of the cell at (`r`, `c`). Returns
    /// whether the cell held it.
    pub fn strike_at(&mut self, r: usize, c: usize, d: usize) -> (hit: bool)
        requires
            old(self).wf(),
            r < 9,
            c < 9,
        ensures
            final(self)@ == old(self)@.put(
                r as int,
                c as int,
                old(self)@.at(r as int, c as int).without(set![d]),
            ),
            hit == old(self)@.at(r as int, c as int).offers(d),
            hit == old(self)@.at(r as int, c as int).meets(set![d]),
            final(self).wf(),
    {
        let hit = self.field[r][c].strike(d);
        proof {
            let x = old(self)@.at(r as int, c as int);
            lemma_cell_without(x, set![d]);
            old(self)@.lemma_put(r as int, c as int, x.without(set![d]));
        }
        assert(self@.cells =~~= old(self)@.put(
            r as int,
            c as int,
            old(self)@.at(r as int, c as int).without(set![d]),
        ).cells);
        assert(self@.rows =~~= old(self)@.rows);
        assert(self@.cols =~~= old(self)@.cols);
        assert(self@.blocks =~~= old(self)@.blocks);
        proof {
            let x = old(self)@.at(r as int, c as int);
            if x.offers(d) {
                assert(set![d].contains(d));
            }
        }
        hit
    }

    /// Strikes every digit of `ds` from the candidates of the cell at
    /// (`r`, `c`). Returns whether the cell held one of them.
    pub fn strike_all_at(&mut self, r: usize, c: usize, ds: &BTreeSet<usize>) -> (hit: bool)
        requires
            old(self).wf(),
            r < 9,
            c < 9,
        ensures
            final(self)@ == old(self)@.put(
                r as int,
                c as int,
                old(self)@.at(r as int, c as int).without(ds@),
            ),
            hit == old(self)@.at(r as int, c as int).meets(ds@),
            final(self).wf(),
    {
        assert(old(self)@.at(r as int, c as int).valid());
        let hit = self.field[r][c].strike_all(ds);
        proof {
            let x = old(self)@.at(r as int, c as int);
            old(self)@.lemma_put(r as int, c as int, x.without(ds@));
        }
        assert(self@.cells =~~= old(self)@.put(
            r as int,
            c as int,
            old(self)@.at(r as int, c as int).without(ds@),
        ).cells);
        assert(self@.rows =~~= old(self)@.rows);
        assert(self@.cols =~~= old(self)@.cols);
        assert(self@.blocks =~~= old(self)@.blocks);
        hit
    }

    /// Whether line `i` of the given kind is recorded as cleared of `d`.
    pub fn is_done(&self, kind: Line, i: usize, d: usize) -> (done: bool)
        requires
            self.wf(),
            i < 9,
            1 <= d <= 9,
        ensures
            done == self@.done(kind, i as int, d),
    {
        match kind {
            Line::Row => self.row_cache[i][d - 1],
            Line::Column => self.col_cache[i][d - 1],
            Line::Block => self.block_cache[i][d - 1],
        }
    }

    /// Records line `i` of the given kind as cleared of `d`.
    pub fn set_done(&mut self, kind: Line, i: usize, d: usize)
        requires
            old(self).wf(),
            i < 9,
            1 <= d <= 9,
        ensures
            final(self)@ == old(self)@.mark(kind, i as int, d),
            final(self).wf(),
    {
        match kind {
            Line::Row => {
                self.row_cache[i][d - 1] = true;
            },
            Line::Column => {
                self.col_cache[i][d - 1] = true;
            },
            Line::Block => {
                self.block_cache[i][d - 1] = true;
            },
        }
        assert(self@.cells =~~= old(self)@.mark(kind, i as int, d).cells);
        assert(self@.rows =~~= old(self)@.mark(kind, i as int, d).rows);
        assert(self@.cols =~~= old(self)@.mark(kind, i as int, d).cols);
        assert(self@.blocks =~~= old(self)@.mark(kind, i as int, d).blocks);
        proof {
            old(self)@.lemma_mark(kind, i as int, d);
        }
    }
}

impl PartialEq for SudokuSolver {
    /// Two boards are equal when every cell is settled on the same digit in
    /// both. A board with an open cell equals no board.
    fn eq(&self, other: &Self) -> (r: bool) {
        if self.field.len() != other.field.len() {
            return false;
        }
        let mut r: usize = 0;
        while r < self.field.len()
            invariant
                r <= self.field.len(),
                self.field.len() == other.field.len(),
                forall|x: int| 0 <= x < r ==> (#[trigger] self.field@[x])@.len() == other.field@[x]@.len(),
                forall|x: int, y: int|
                    0 <= x < r && 0 <= y < self.field@[x]@.len() ==> (#[trigger] self.field@[x]@[y])@ is Fixed
                        && self.field@[x]@[y]@ == other.field@[x]@[y]@,
            decreases self.field.len() - r,
        {
            if self.field[r].len() != other.field[r].len() {
                assert(self@.cells[r as int].len() != other@.cells[r as int].len());
                return false;
            }
            let mut c: usize = 0;
            while c < self.field[r].len()
                invariant
                    r < self.field.len(),
                    self.field.len() == other.field.len(),
                    c <= self.field@[r as int]@.len(),
                    self.field@[r as int]@.len() == other.field@[r as int]@.len(),
                    forall|y: int|
                        0 <= y < c ==> (#[trigger] self.field@[r as int]@[y])@ is Fixed
                            && self.field@[r as int]@[y]@ == other.field@[r as int]@[y]@,
                decreases self.field@[r as int]@.len() - c,
            {
                assert(self@.cells[r as int].len() == self.field@[r as int]@.len());
                assert(self@.cells[r as int][c as int] == self.field@[r as int]@[c as int]@);
                assert(other@.cells[r as int][c as int] == other.field@[r as int]@[c as int]@);
                match (&self.field[r][c], &other.field[r][c]) {
                    (FieldElement::NUM(a), FieldElement::NUM(b)) => {
                        if *a != *b {
                            return false;
                        }
                    },
                    _ => {
                        return false;
                    },
                }
                c += 1;
            }
            r += 1;
        }
        true
    }
}

impl vstd::std_specs::cmp::PartialEqSpecImpl for SudokuSolver {
    /// `==` on boards is what `eq_spec` says.
    open spec fn obeys_eq_spec() -> bool {
        true
    }

    /// The boards have the same shape, and every cell is settled on the
    /// same digit in both.
    open spec fn eq_spec(&self, other: &SudokuSolver) -> bool {
        self@.settled_like(other@)
    }
}

} // verus!
