//! The mathematical model of a Sudoku board that all contracts speak of.
use vstd::prelude::*;
use vstd::set_lib::*;

verus! {

/// The digits a cell may hold: 1 to 9.
pub open spec fn digits() -> Set<usize> {
    Set::new(|d: usize| 1 <= d <= 9)
}

/// One position of the grid: a settled digit, or the digits still possible there.
#[verifier::ext_equal]
pub enum Cell {
    Fixed(usize),
    Candidates(Set<usize>),
}

impl Cell {
    /// A settled digit lies in 1..=9; a candidate set holds such digits only.
    pub open spec fn valid(self) -> bool {
        match self {
            Cell::Fixed(d) => 1 <= d <= 9,
            Cell::Candidates(s) => s.finite() && s.subset_of(digits()),
        }
    }

    /// The cell is open and `d` is one of its candidates.
    pub open spec fn offers(self, d: usize) -> bool {
        self matches Cell::Candidates(s) && s.contains(d)
    }

    /// The cell can only be `d`: it is settled as `d`, or `d` is its one candidate.
    pub open spec fn pins(self, d: usize) -> bool {
        match self {
            Cell::Fixed(n) => n == d,
            Cell::Candidates(s) => s == set![d],
        }
    }

    /// The cell after the digits `ds` are struck from its candidates.
    pub open spec fn without(self, ds: Set<usize>) -> Cell {
        match self {
            Cell::Fixed(n) => Cell::Fixed(n),
            Cell::Candidates(s) => Cell::Candidates(s.difference(ds)),
        }
    }

    /// The cell is open and holds at least one of the digits `ds`.
    pub open spec fn meets(self, ds: Set<usize>) -> bool {
        self matches Cell::Candidates(s) && exists|d: usize| s.contains(d) && ds.contains(d)
    }

    /// The digits an open cell still offers; none for a settled cell.
    pub open spec fn candidates(self) -> Set<usize> {
        match self {
            Cell::Fixed(_) => Set::empty(),
            Cell::Candidates(s) => s,
        }
    }

    /// The digit a settled cell shows; 0 for an open cell.
    pub open spec fn shown(self) -> usize {
        match self {
            Cell::Fixed(d) => d,
            Cell::Candidates(_) => 0,
        }
    }

    /// The one candidate of an open cell that has exactly one.
    pub open spec fn single(self) -> Option<usize> {
        match self {
            Cell::Fixed(_) => None,
            Cell::Candidates(s) => if s.finite() && s.len() == 1 {
                Some(s.choose())
            } else {
                None
            },
        }
    }

    /// The cell after a lone candidate is made its settled digit.
    pub open spec fn settle(self) -> Cell {
        match self.single() {
            Some(d) => Cell::Fixed(d),
            None => self,
        }
    }

    /// How much is still undecided here: nothing for a settled cell, one more
    /// than the number of candidates for an open one.
    pub open spec fn weight(self) -> nat {
        match self {
            Cell::Fixed(_) => 0,
            Cell::Candidates(s) => s.len() + 1,
        }
    }

    /// `later` may follow `self` in a solving attempt: a settled cell stays as
    /// it is, an open cell loses candidates or settles on one of them.
    pub open spec fn narrows_to(self, later: Cell) -> bool {
        match self {
            Cell::Fixed(d) => later == Cell::Fixed(d),
            Cell::Candidates(s) => match later {
                Cell::Fixed(d) => s.contains(d),
                Cell::Candidates(t) => t.subset_of(s),
            },
        }
    }
}

/// A row, a column or a 3x3 block: nine cells that must hold nine different digits.
#[derive(Clone, Copy, PartialEq, Eq, Structural, Debug)]
pub enum Line {
    Row,
    Column,
    Block,
}

/// Index of the block that holds the cell at (`row`, `col`).
pub open spec fn block_of(row: int, col: int) -> int {
    (row / 3) * 3 + col / 3
}

/// Row and column of the `k`-th cell of line `i` of the given kind.
pub open spec fn cell_of(kind: Line, i: int, k: int) -> (int, int) {
    match kind {
        Line::Row => (i, k),
        Line::Column => (k, i),
        Line::Block => ((i / 3) * 3 + k / 3, (i % 3) * 3 + k % 3),
    }
}

/// The cell at (`r`, `c`) lies on line `i` of the given kind.
pub open spec fn lies_on(kind: Line, i: int, r: int, c: int) -> bool {
    match kind {
        Line::Row => r == i,
        Line::Column => c == i,
        Line::Block => block_of(r, c) == i,
    }
}

/// Where on its line of the given kind the cell at (`r`, `c`) stands.
pub open spec fn place_on(kind: Line, r: int, c: int) -> int {
    match kind {
        Line::Row => c,
        Line::Column => r,
        Line::Block => (r % 3) * 3 + c % 3,
    }
}

/// Both coordinates are inside the grid.
pub open spec fn inside(r: int, c: int) -> bool {
    0 <= r < 9 && 0 <= c < 9
}

/// A board: 81 cells and, for each line and digit, whether the line has
/// already been cleared of that digit.
#[verifier::ext_equal]
pub struct Board {
    pub cells: Seq<Seq<Cell>>,
    pub rows: Seq<Seq<bool>>,
    pub cols: Seq<Seq<bool>>,
    pub blocks: Seq<Seq<bool>>,
}

/// Nine rows of nine entries.
pub open spec fn square<T>(m: Seq<Seq<T>>) -> bool {
    m.len() == 9 && forall|i: int| 0 <= i < 9 ==> (#[trigger] m[i]).len() == 9
}

impl Board {
    /// The cell in row `r`, column `c`.
    pub open spec fn at(self, r: int, c: int) -> Cell {
        self.cells[r][c]
    }

    /// The `k`-th cell of line `i` of the given kind.
    pub open spec fn on(self, kind: Line, i: int, k: int) -> Cell {
        self.at(cell_of(kind, i, k).0, cell_of(kind, i, k).1)
    }

    /// The cells and the three tables of records are nine by nine.
    pub open spec fn shaped(self) -> bool {
        square(self.cells) && square(self.rows) && square(self.cols) && square(self.blocks)
    }

    /// The board has its shape and every cell is valid.
    pub open spec fn wf(self) -> bool {
        self.shaped() && forall|r: int, c: int| inside(r, c) ==> (#[trigger] self.at(r, c)).valid()
    }

    /// Line `i` of the given kind is recorded as cleared of digit `d`.
    pub open spec fn done(self, kind: Line, i: int, d: usize) -> bool {
        match kind {
            Line::Row => self.rows[i][d - 1],
            Line::Column => self.cols[i][d - 1],
            Line::Block => self.blocks[i][d - 1],
        }
    }

    /// The board with line `i` of the given kind recorded as cleared of `d`.
    pub open spec fn mark(self, kind: Line, i: int, d: usize) -> Board {
        match kind {
            Line::Row => Board { rows: self.rows.update(i, self.rows[i].update(d - 1, true)), ..self },
            Line::Column => Board { cols: self.cols.update(i, self.cols[i].update(d - 1, true)), ..self },
            Line::Block => Board {
                blocks: self.blocks.update(i, self.blocks[i].update(d - 1, true)),
                ..self
            },
        }
    }

    /// The board with the cell at (`r`, `c`) replaced.
    pub open spec fn put(self, r: int, c: int, cell: Cell) -> Board {
        Board { cells: self.cells.update(r, self.cells[r].update(c, cell)), ..self }
    }

    /// The board after the digits `ds` are struck from the candidates of every
    /// cell of `region`.
    pub open spec fn erase(self, ds: Set<usize>, region: spec_fn(int, int) -> bool) -> Board {
        Board {
            cells: Seq::new(
                9,
                |r: int|
                    Seq::new(
                        9,
                        |c: int|
                            if region(r, c) {
                                self.at(r, c).without(ds)
                            } else {
                                self.at(r, c)
                            },
                    ),
            ),
            ..self
        }
    }

    /// Some open cell of `region` holds one of the digits `ds`.
    pub open spec fn hit(self, ds: Set<usize>, region: spec_fn(int, int) -> bool) -> bool {
        exists|r: int, c: int| inside(r, c) && region(r, c) && (#[trigger] self.at(r, c)).meets(ds)
    }

    /// Some cell is still open.
    pub open spec fn vacant(self) -> bool {
        exists|r: int, c: int| inside(r, c) && #[trigger] self.at(r, c) is Candidates
    }

    /// The `k`-th cell, counted row by row.
    pub open spec fn nth(self, k: int) -> Cell {
        self.at(k / 9, k % 9)
    }

    /// Sum of the weights of the first `n` cells, counted row by row.
    pub open spec fn weight_upto(self, n: int) -> nat
        decreases n,
    {
        if n <= 0 {
            0
        } else {
            self.weight_upto(n - 1) + self.nth(n - 1).weight()
        }
    }

    /// How much of the board is still undecided. Every step of a solving
    /// attempt that changes a cell lowers it.
    pub open spec fn weight(self) -> nat {
        self.weight_upto(81)
    }

    /// `later` may follow `self` in a solving attempt: each cell narrows, and
    /// no record of a cleared line is lost.
    pub open spec fn narrows_to(self, later: Board) -> bool {
        &&& forall|r: int, c: int| inside(r, c) ==> (#[trigger] self.at(r, c)).narrows_to(later.at(r, c))
        &&& forall|kind: Line, i: int, d: usize|
            0 <= i < 9 && 1 <= d <= 9 && #[trigger] self.done(kind, i, d) ==> later.done(kind, i, d)
    }

    /// The two boards have the same shape, and every cell is settled on the
    /// same digit in both.
    pub open spec fn settled_like(self, other: Board) -> bool {
        &&& self.cells.len() == other.cells.len()
        &&& forall|r: int|
            0 <= r < self.cells.len() ==> (#[trigger] self.cells[r]).len() == other.cells[r].len()
        &&& forall|r: int, c: int|
            0 <= r < self.cells.len() && 0 <= c < self.cells[r].len() ==> (
            #[trigger] self.cells[r][c]) is Fixed && self.cells[r][c] == other.cells[r][c]
    }

    /// The two boards hold the same cells.
    pub open spec fn same_cells(self, other: Board) -> bool {
        forall|r: int, c: int| inside(r, c) ==> #[trigger] self.at(r, c) == other.at(r, c)
    }
}

/// A cell that narrows never gains weight, and loses some when it changes.
pub proof fn lemma_cell_narrows(x: Cell, y: Cell)
    requires
        x.valid(),
        x.narrows_to(y),
    ensures
        y.weight() <= x.weight(),
        x != y ==> y.weight() < x.weight(),
{
    match x {
        Cell::Fixed(_) => {},
        Cell::Candidates(s) => match y {
            Cell::Fixed(_) => {},
            Cell::Candidates(t) => {
                lemma_len_subset(t, s);
                if t != s {
                    assert(!(t =~= s));
                    let e = choose|e: usize| s.contains(e) && !t.contains(e);
                    t.lemma_subset_not_in_lt(s, e);
                }
            },
        },
    }
}

/// Narrowing is transitive on cells.
pub proof fn lemma_cell_narrows_trans(x: Cell, y: Cell, z: Cell)
    requires
        x.narrows_to(y),
        y.narrows_to(z),
    ensures
        x.narrows_to(z),
{
}

/// Striking digits narrows a cell, keeps it valid, and changes it exactly
/// when it held one of them.
pub proof fn lemma_cell_without(x: Cell, ds: Set<usize>)
    requires
        x.valid(),
    ensures
        x.without(ds).valid(),
        x.narrows_to(x.without(ds)),
        x.without(ds) != x <==> x.meets(ds),
{
    match x {
        Cell::Fixed(_) => {},
        Cell::Candidates(s) => {
            let t = s.difference(ds);
            if x.meets(ds) {
                let d = choose|d: usize| s.contains(d) && ds.contains(d);
                assert(!t.contains(d));
            } else {
                assert(t =~= s);
            }
        },
    }
}

/// There are nine digits.
pub proof fn lemma_nine_digits()
    ensures
        digits().finite(),
        digits().len() == 9,
{
    let s: Set<usize> = set![1, 2, 3, 4, 5, 6, 7, 8, 9];
    assert(digits() =~= s);
    assert(set![1usize].len() == 1);
    assert(set![1usize, 2].len() == 2);
    assert(set![1usize, 2, 3].len() == 3);
    assert(set![1usize, 2, 3, 4].len() == 4);
    assert(set![1usize, 2, 3, 4, 5].len() == 5);
    assert(set![1usize, 2, 3, 4, 5, 6].len() == 6);
    assert(set![1usize, 2, 3, 4, 5, 6, 7].len() == 7);
    assert(set![1usize, 2, 3, 4, 5, 6, 7, 8].len() == 8);
    assert(s.len() == 9);
}

/// A finite set of one element holds its chosen element and nothing else.
pub proof fn lemma_single(s: Set<usize>)
    requires
        s.finite(),
        s.len() == 1,
    ensures
        s == set![s.choose()],
        s.contains(s.choose()),
{
    Set::lemma_is_singleton(s);
    let d = s.choose();
    assert(s.contains(d));
    assert(s =~= set![d]);
}

/// Settling a cell narrows it and keeps it valid.
pub proof fn lemma_cell_settle(x: Cell)
    requires
        x.valid(),
    ensures
        x.settle().valid(),
        x.narrows_to(x.settle()),
        x.single() matches Some(d) ==> x.pins(d) && 1 <= d <= 9,
{
    match x {
        Cell::Fixed(_) => {},
        Cell::Candidates(s) => {
            if s.len() == 1 {
                lemma_single(s);
            }
        },
    }
}

impl Board {
    /// Partial weights only grow with the number of cells counted, and a
    /// board that narrows weighs no more on any prefix.
    pub proof fn lemma_weight_upto(self, later: Board, n: int)
        requires
            self.wf(),
            self.narrows_to(later),
            0 <= n <= 81,
        ensures
            later.weight_upto(n) <= self.weight_upto(n),
            (exists|k: int| 0 <= k < n && #[trigger] self.nth(k) != later.nth(k))
                ==> later.weight_upto(n) < self.weight_upto(n),
        decreases n,
    {
        if n > 0 {
            self.lemma_weight_upto(later, n - 1);
            let r = (n - 1) / 9;
            let c = (n - 1) % 9;
            assert(inside(r, c));
            lemma_cell_narrows(self.at(r, c), later.at(r, c));
            if exists|k: int| 0 <= k < n && #[trigger] self.nth(k) != later.nth(k) {
                let k = choose|k: int| 0 <= k < n && #[trigger] self.nth(k) != later.nth(k);
                if k < n - 1 {
                    assert(self.nth(k) != later.nth(k));
                }
            }
        }
    }

    /// A board that narrows never gains weight, and loses some when a cell changes.
    pub proof fn lemma_narrows_weight(self, later: Board)
        requires
            self.wf(),
            self.narrows_to(later),
        ensures
            later.weight() <= self.weight(),
            !self.same_cells(later) ==> later.weight() < self.weight(),
    {
        self.lemma_weight_upto(later, 81);
        if !self.same_cells(later) {
            let (r, c) = choose|r: int, c: int| inside(r, c) && #[trigger] self.at(r, c) != later.at(r, c);
            let k = r * 9 + c;
            assert(k / 9 == r && k % 9 == c);
            assert(self.nth(k) != later.nth(k));
        }
    }

    /// Every board narrows to itself.
    pub proof fn lemma_narrows_refl(self)
        ensures
            self.narrows_to(self),
    {
        assert forall|r: int, c: int| inside(r, c) implies (#[trigger] self.at(r, c)).narrows_to(
            self.at(r, c),
        ) by {
            match self.at(r, c) {
                Cell::Fixed(_) => {},
                Cell::Candidates(_) => {},
            }
        }
    }

    /// Narrowing is transitive.
    pub proof fn lemma_narrows_trans(self, mid: Board, later: Board)
        requires
            self.narrows_to(mid),
            mid.narrows_to(later),
        ensures
            self.narrows_to(later),
    {
        assert forall|r: int, c: int| inside(r, c) implies (#[trigger] self.at(r, c)).narrows_to(
            later.at(r, c),
        ) by {
            lemma_cell_narrows_trans(self.at(r, c), mid.at(r, c), later.at(r, c));
        }
        assert forall|kind: Line, i: int, d: usize|
            0 <= i < 9 && 1 <= d <= 9 && #[trigger] self.done(kind, i, d) implies later.done(
            kind,
            i,
            d,
        ) by {
            assert(mid.done(kind, i, d));
        }
    }

    /// Striking digits from a region keeps the board well formed, narrows it,
    /// and changes a cell exactly when the region held one of the digits.
    pub proof fn lemma_erase(self, ds: Set<usize>, region: spec_fn(int, int) -> bool)
        requires
            self.wf(),
        ensures
            self.erase(ds, region).wf(),
            self.narrows_to(self.erase(ds, region)),
            !self.same_cells(self.erase(ds, region)) <==> self.hit(ds, region),
    {
        let e = self.erase(ds, region);
        assert forall|r: int, c: int| inside(r, c) implies (#[trigger] e.at(r, c)).valid()
            && self.at(r, c).narrows_to(e.at(r, c)) by {
            lemma_cell_without(self.at(r, c), ds);
            self.lemma_narrows_refl();
        }
        if self.hit(ds, region) {
            let (r, c) = choose|r: int, c: int|
                inside(r, c) && region(r, c) && (#[trigger] self.at(r, c)).meets(ds);
            lemma_cell_without(self.at(r, c), ds);
            assert(self.at(r, c) != e.at(r, c));
        }
        if !self.same_cells(e) {
            let (r, c) = choose|r: int, c: int| inside(r, c) && #[trigger] self.at(r, c) != e.at(r, c);
            lemma_cell_without(self.at(r, c), ds);
            assert(region(r, c));
        }
    }
}

/// The `k`-th cell of block `i` lies in the grid, in that block, at place `k`.
pub proof fn lemma_block_cell(i: int, k: int)
    requires
        0 <= i < 9,
        0 <= k < 9,
    ensures
        ({
            let r = (i / 3) * 3 + k / 3;
            let c = (i % 3) * 3 + k % 3;
            inside(r, c) && block_of(r, c) == i && (r % 3) * 3 + c % 3 == k
        }),
{
    let a = i / 3;
    let b = i % 3;
    let x = k / 3;
    let y = k % 3;
    assert(0 <= a < 3 && 0 <= b < 3 && 0 <= x < 3 && 0 <= y < 3);
    assert((a * 3 + x) / 3 == a && (a * 3 + x) % 3 == x);
    assert((b * 3 + y) / 3 == b && (b * 3 + y) % 3 == y);
}

/// A cell of the grid is the cell of its block at its place in the block.
pub proof fn lemma_cell_block(r: int, c: int)
    requires
        inside(r, c),
    ensures
        ({
            let i = block_of(r, c);
            let k = (r % 3) * 3 + c % 3;
            0 <= i < 9 && 0 <= k < 9 && (i / 3) * 3 + k / 3 == r && (i % 3) * 3 + k % 3 == c
        }),
{
    let a = r / 3;
    let b = c / 3;
    let x = r % 3;
    let y = c % 3;
    assert(0 <= a < 3 && 0 <= b < 3 && 0 <= x < 3 && 0 <= y < 3);
    assert((a * 3 + b) / 3 == a && (a * 3 + b) % 3 == b);
    assert((x * 3 + y) / 3 == x && (x * 3 + y) % 3 == y);
}

/// Each cell of a line is found again from its place on the line, and a
/// cell lies on exactly the lines that its coordinates name.
pub proof fn lemma_line_geometry(kind: Line, i: int)
    requires
        0 <= i < 9,
    ensures
        forall|k: int|
            0 <= k < 9 ==> {
                let (r, c) = #[trigger] cell_of(kind, i, k);
                inside(r, c) && lies_on(kind, i, r, c) && place_on(kind, r, c) == k
            },
        forall|r: int, c: int|
            inside(r, c) && #[trigger] lies_on(kind, i, r, c) ==> {
                let k = place_on(kind, r, c);
                0 <= k < 9 && cell_of(kind, i, k) == (r, c)
            },
{
    assert forall|k: int| 0 <= k < 9 implies {
        let (r, c) = #[trigger] cell_of(kind, i, k);
        inside(r, c) && lies_on(kind, i, r, c) && place_on(kind, r, c) == k
    } by {
        if kind is Block {
            lemma_block_cell(i, k);
        }
    }
    assert forall|r: int, c: int| inside(r, c) && #[trigger] lies_on(kind, i, r, c) implies {
        let k = place_on(kind, r, c);
        0 <= k < 9 && cell_of(kind, i, k) == (r, c)
    } by {
        if kind is Block {
            lemma_cell_block(r, c);
        }
    }
}

impl Board {
    /// Shaped boards that agree cell by cell hold the same table of cells.
    pub proof fn lemma_same_cells(self, other: Board)
        requires
            self.shaped(),
            other.shaped(),
            self.same_cells(other),
        ensures
            self.cells == other.cells,
    {
        assert(self.cells =~~= other.cells) by {
            assert forall|x: int| 0 <= x < 9 implies #[trigger] self.cells[x] =~~= other.cells[x] by {
                assert forall|y: int| 0 <= y < 9 implies #[trigger] self.cells[x][y]
                    == other.cells[x][y] by {
                    assert(inside(x, y));
                    assert(self.at(x, y) == other.at(x, y));
                }
            }
        }
    }

    /// Along a chain of narrowing boards, a cell differs between the ends
    /// exactly when it differs across one of the two links.
    pub proof fn lemma_changed_chain(self, mid: Board, later: Board)
        requires
            self.narrows_to(mid),
            mid.narrows_to(later),
        ensures
            self.narrows_to(later),
            self.same_cells(later) <==> self.same_cells(mid) && mid.same_cells(later),
    {
        self.lemma_narrows_trans(mid, later);
        if self.same_cells(later) {
            assert forall|r: int, c: int| inside(r, c) implies self.at(r, c) == #[trigger] mid.at(
                r,
                c,
            ) && mid.at(r, c) == later.at(r, c) by {
                let x = self.at(r, c);
                let y = mid.at(r, c);
                let z = later.at(r, c);
                assert(x == z);
                assert(x.narrows_to(y) && y.narrows_to(z));
                match x {
                    Cell::Fixed(_) => {},
                    Cell::Candidates(s) => match y {
                        Cell::Fixed(_) => {},
                        Cell::Candidates(t) => {
                            assert(t =~= s);
                        },
                    },
                }
            }
            assert forall|r: int, c: int| inside(r, c) implies #[trigger] self.at(r, c) == mid.at(
                r,
                c,
            ) by {
                assert(self.at(r, c) == mid.at(r, c) && mid.at(r, c) == later.at(r, c));
            }
        }
        if self.same_cells(mid) && mid.same_cells(later) {
            assert forall|r: int, c: int| inside(r, c) implies #[trigger] self.at(r, c) == later.at(
                r,
                c,
            ) by {
                assert(self.at(r, c) == mid.at(r, c));
                assert(mid.at(r, c) == later.at(r, c));
            }
        }
    }

    /// Marking a line as cleared keeps the board well formed, keeps every
    /// cell, and narrows the board.
    pub proof fn lemma_mark(self, kind: Line, i: int, d: usize)
        requires
            self.wf(),
            0 <= i < 9,
            1 <= d <= 9,
        ensures
            self.mark(kind, i, d).wf(),
            self.mark(kind, i, d).cells == self.cells,
            self.narrows_to(self.mark(kind, i, d)),
            self.same_cells(self.mark(kind, i, d)),
            self.mark(kind, i, d).done(kind, i, d),
    {
        let m = self.mark(kind, i, d);
        self.lemma_narrows_refl();
        assert forall|r: int, c: int| inside(r, c) implies (#[trigger] m.at(r, c)).valid() && self.at(
            r,
            c,
        ).narrows_to(m.at(r, c)) by {
            assert(m.at(r, c) == self.at(r, c));
        }
        assert forall|k: Line, j: int, e: usize|
            0 <= j < 9 && 1 <= e <= 9 && #[trigger] self.done(k, j, e) implies m.done(k, j, e) by {}
    }

    /// Replacing a cell by a valid one keeps the board well formed; where the
    /// old cell narrows to the new one, the board narrows.
    pub proof fn lemma_put(self, r: int, c: int, cell: Cell)
        requires
            self.wf(),
            inside(r, c),
            cell.valid(),
        ensures
            self.put(r, c, cell).wf(),
            self.put(r, c, cell).at(r, c) == cell,
            forall|x: int, y: int|
                inside(x, y) && !(x == r && y == c) ==> #[trigger] self.put(r, c, cell).at(x, y)
                    == self.at(x, y),
            self.at(r, c).narrows_to(cell) ==> self.narrows_to(self.put(r, c, cell)),
    {
        let m = self.put(r, c, cell);
        self.lemma_narrows_refl();
        assert forall|x: int, y: int| inside(x, y) implies (#[trigger] m.at(x, y)).valid() by {
            if !(x == r && y == c) {
                assert(m.at(x, y) == self.at(x, y));
            }
        }
        if self.at(r, c).narrows_to(cell) {
            assert forall|x: int, y: int| inside(x, y) implies (#[trigger] self.at(x, y)).narrows_to(
                m.at(x, y),
            ) by {
                if !(x == r && y == c) {
                    assert(m.at(x, y) == self.at(x, y));
                }
            }
            assert forall|k: Line, j: int, e: usize|
                0 <= j < 9 && 1 <= e <= 9 && #[trigger] self.done(k, j, e) implies m.done(k, j, e) by {}
        }
    }

    /// Striking from a region with one more cell is striking from the
    /// region and then from that cell.
    pub proof fn lemma_erase_grow(
        self,
        ds: Set<usize>,
        region: spec_fn(int, int) -> bool,
        wider: spec_fn(int, int) -> bool,
        r: int,
        c: int,
    )
        requires
            self.wf(),
            inside(r, c),
            !region(r, c),
            forall|x: int, y: int|
                inside(x, y) ==> (#[trigger] wider(x, y) <==> region(x, y) || (x == r && y == c)),
        ensures
            self.erase(ds, wider) == self.erase(ds, region).put(r, c, self.at(r, c).without(ds)),
            self.erase(ds, region).at(r, c) == self.at(r, c),
            self.hit(ds, wider) <==> self.hit(ds, region) || self.at(r, c).meets(ds),
    {
        let a = self.erase(ds, wider);
        let b = self.erase(ds, region).put(r, c, self.at(r, c).without(ds));
        assert(a.cells =~~= b.cells) by {
            assert forall|x: int| 0 <= x < 9 implies #[trigger] a.cells[x] =~~= b.cells[x] by {
                assert forall|y: int| 0 <= y < 9 implies #[trigger] a.cells[x][y] == b.cells[x][y] by {
                    assert(inside(x, y));
                    assert(wider(x, y) <==> region(x, y) || (x == r && y == c));
                }
            }
        }
        if self.hit(ds, wider) {
            let (x, y) = choose|x: int, y: int|
                inside(x, y) && wider(x, y) && (#[trigger] self.at(x, y)).meets(ds);
            if !(x == r && y == c) {
                assert(region(x, y) && self.at(x, y).meets(ds));
            }
        }
        if self.hit(ds, region) {
            let (x, y) = choose|x: int, y: int|
                inside(x, y) && region(x, y) && (#[trigger] self.at(x, y)).meets(ds);
            assert(wider(x, y) && self.at(x, y).meets(ds));
        }
        if self.at(r, c).meets(ds) {
            assert(wider(r, c));
        }
    }

    /// Regions that agree inside the grid are struck alike.
    pub proof fn lemma_erase_same(
        self,
        ds: Set<usize>,
        region: spec_fn(int, int) -> bool,
        other: spec_fn(int, int) -> bool,
    )
        requires
            self.shaped(),
            forall|x: int, y: int| inside(x, y) ==> (#[trigger] other(x, y) <==> region(x, y)),
        ensures
            self.erase(ds, other) == self.erase(ds, region),
            self.hit(ds, other) <==> self.hit(ds, region),
    {
        let a = self.erase(ds, other);
        let b = self.erase(ds, region);
        assert(a.cells =~~= b.cells) by {
            assert forall|x: int| 0 <= x < 9 implies #[trigger] a.cells[x] =~~= b.cells[x] by {
                assert forall|y: int| 0 <= y < 9 implies #[trigger] a.cells[x][y] == b.cells[x][y] by {
                    assert(inside(x, y));
                    assert(other(x, y) <==> region(x, y));
                }
            }
        }
        if self.hit(ds, other) {
            let (x, y) = choose|x: int, y: int|
                inside(x, y) && other(x, y) && (#[trigger] self.at(x, y)).meets(ds);
            assert(region(x, y) && self.at(x, y).meets(ds));
        }
        if self.hit(ds, region) {
            let (x, y) = choose|x: int, y: int|
                inside(x, y) && region(x, y) && (#[trigger] self.at(x, y)).meets(ds);
            assert(other(x, y) && self.at(x, y).meets(ds));
        }
    }

    /// Striking from no cell at all changes nothing.
    pub proof fn lemma_erase_nothing(self, ds: Set<usize>, region: spec_fn(int, int) -> bool)
        requires
            self.shaped(),
            forall|x: int, y: int| inside(x, y) ==> !#[trigger] region(x, y),
        ensures
            self.erase(ds, region) == self,
            !self.hit(ds, region),
    {
        let a = self.erase(ds, region);
        assert(a.cells =~~= self.cells) by {
            assert forall|x: int| 0 <= x < 9 implies #[trigger] a.cells[x] =~~= self.cells[x] by {
                assert forall|y: int| 0 <= y < 9 implies #[trigger] a.cells[x][y]
                    == self.cells[x][y] by {
                    assert(inside(x, y));
                    assert(!region(x, y));
                }
            }
        }
    }
}

/// The character for a digit from 0 to 9.
pub open spec fn digit_char(d: usize) -> char {
    (48 + d) as char
}

impl Board {
    /// The first `n` cells written out row by row: each cell as the digit it
    /// shows, each row of nine closed by a line feed.
    pub open spec fn text(self, n: int) -> Seq<char>
        decreases n,
    {
        if n <= 0 {
            Seq::empty()
        } else if (n - 1) % 9 == 8 {
            self.text(n - 1).push(digit_char(self.nth(n - 1).shown())).push('\n')
        } else {
            self.text(n - 1).push(digit_char(self.nth(n - 1).shown()))
        }
    }
}

/// The characters that may stand in the text of a puzzle: a digit (code 48
/// to 57), or `*` (code 42) for a blank.
pub open spec fn puzzle_char(c: char) -> bool {
    c as u32 == 42 || (48 <= c as u32 && c as u32 <= 57)
}

/// The cell that a character of the text stands for: every digit is
/// possible where it is `0` or `*`, else the cell is settled on the digit.
pub open spec fn cell_from(c: char) -> Cell {
    if c as u32 == 42 || c as u32 == 48 {
        Cell::Candidates(digits())
    } else {
        Cell::Fixed((c as u32 - 48) as usize)
    }
}

/// The text is nine lines of nine puzzle characters.
pub open spec fn puzzle_text(text: Seq<Seq<char>>) -> bool {
    &&& text.len() == 9
    &&& forall|r: int| 0 <= r < 9 ==> (#[trigger] text[r]).len() == 9
    &&& forall|r: int, c: int| inside(r, c) ==> puzzle_char(#[trigger] text[r][c])
}

/// A table of nine times nine entries, none of them set.
pub open spec fn nothing_done() -> Seq<Seq<bool>> {
    Seq::new(9, |i: int| Seq::new(9, |d: int| false))
}

/// The board that a puzzle text describes, with no line recorded as cleared.
pub open spec fn board_from(text: Seq<Seq<char>>) -> Board {
    Board {
        cells: Seq::new(9, |r: int| Seq::new(9, |c: int| cell_from(text[r][c]))),
        rows: nothing_done(),
        cols: nothing_done(),
        blocks: nothing_done(),
    }
}

/// The board of a puzzle text is well formed.
pub proof fn lemma_board_from(text: Seq<Seq<char>>)
    requires
        puzzle_text(text),
    ensures
        board_from(text).wf(),
{
    let b = board_from(text);
    lemma_nine_digits();
    assert forall|r: int, c: int| inside(r, c) implies (#[trigger] b.at(r, c)).valid() by {
        assert(puzzle_char(text[r][c]));
    }
}

} // verus!
