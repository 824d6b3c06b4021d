//! Pentomino pieces: a piece is kept as the offsets of its squares from its
//! anchor, the leftmost square of its top row.
//!
//! ```text
//! ------> x
//! |
//! v
//! y
//! ```
use vstd::prelude::*;
use vstd::string::*;

verus! {

/// A square of the plane, as (x, y).
pub type Square = (int, int);

/// `a` comes before `b` when the squares are read row by row.
pub open spec fn before(a: Square, b: Square) -> bool {
    a.1 < b.1 || (a.1 == b.1 && a.0 < b.0)
}

/// Among the first `n` squares, the index of the one that comes first when
/// read row by row; of equal squares the earliest.
pub open spec fn anchor(cells: Seq<Square>, n: int) -> int
    decreases n,
{
    if n <= 1 {
        0
    } else if before(cells[n - 1], cells[anchor(cells, n - 1)]) {
        n - 1
    } else {
        anchor(cells, n - 1)
    }
}

/// The squares but the `k`-th, each as its offset from the `k`-th.
pub open spec fn offsets(cells: Seq<Square>, k: int) -> Seq<Square> {
    Seq::new(
        (cells.len() - 1) as nat,
        |i: int|
            {
                let c = if i < k {
                    cells[i]
                } else {
                    cells[i + 1]
                };
                (c.0 - cells[k].0, c.1 - cells[k].1)
            },
    )
}

/// The squares of a piece as offsets from its anchor, the anchor left out.
pub open spec fn normalized(cells: Seq<Square>) -> Seq<Square> {
    offsets(cells, anchor(cells, cells.len() as int))
}

/// The squares marked `1` in a picture of lines of `l` characters: those of
/// the lines before `y`, then those of line `y` before column `x`.
pub open spec fn marked(text: Seq<char>, l: int, y: int, x: int) -> Seq<Square>
    decreases y, x,
{
    if x <= 0 {
        if y <= 0 {
            Seq::empty()
        } else {
            marked(text, l, y - 1, l)
        }
    } else if text[y * l + x - 1] == '1' {
        marked(text, l, y, x - 1).push((x - 1, y))
    } else {
        marked(text, l, y, x - 1)
    }
}

/// The square mirrored left to right.
pub open spec fn mirrored(p: Square) -> Square {
    (-p.0, p.1)
}

/// The square after `n` quarter turns about the origin.
pub open spec fn turned(p: Square, n: nat) -> Square
    decreases n,
{
    if n == 0 {
        p
    } else {
        let q = turned(p, (n - 1) as nat);
        (-q.1, q.0)
    }
}

/// No two of the squares are further apart, along either axis, than an
/// `i32` can tell.
pub open spec fn close(cells: Seq<Square>) -> bool {
    forall|i: int, j: int|
        0 <= i < cells.len() && 0 <= j < cells.len() ==> {
            let a = #[trigger] cells[i];
            let b = #[trigger] cells[j];
            a.0 - b.0 <= i32::MAX && a.1 - b.1 <= i32::MAX
        }
}

/// The squares of a piece with its anchor, which stands at the origin.
pub open spec fn with_anchor(cells: Seq<Square>) -> Seq<Square> {
    seq![(0int, 0int)] + cells
}

/// The anchor is one of the squares.
pub proof fn lemma_anchor(cells: Seq<Square>, n: int)
    requires
        1 <= n <= cells.len(),
    ensures
        0 <= anchor(cells, n) < n,
    decreases n,
{
    if n > 1 {
        lemma_anchor(cells, n - 1);
    }
}

/// Squares that lie close together still do when taken as offsets from one
/// of them, that one put back at the origin.
pub proof fn lemma_offsets_close(cells: Seq<Square>, k: int)
    requires
        0 <= k < cells.len(),
        close(cells),
    ensures
        close(with_anchor(offsets(cells, k))),
{
    let out = with_anchor(offsets(cells, k));
    let src = |i: int| if i == 0 { k } else if i - 1 < k { i - 1 } else { i };
    assert forall|i: int, j: int| 0 <= i < out.len() && 0 <= j < out.len() implies {
        let a = #[trigger] out[i];
        let b = #[trigger] out[j];
        a.0 - b.0 <= i32::MAX && a.1 - b.1 <= i32::MAX
    } by {
        let a = cells[src(i)];
        let b = cells[src(j)];
        assert(out[i] == (a.0 - cells[k].0, a.1 - cells[k].1));
        assert(out[j] == (b.0 - cells[k].0, b.1 - cells[k].1));
    }
}

/// A piece of a tiling puzzle.
#[derive(Debug, Hash)]
pub struct Block {
    block: Vec<(i32, i32)>,
}

/// The squares that a list of coordinate pairs names.
pub open spec fn squares(v: Seq<(i32, i32)>) -> Seq<Square> {
    Seq::new(v.len(), |i: int| (v[i].0 as int, v[i].1 as int))
}

impl View for Block {
    type V = Seq<Square>;

    closed spec fn view(&self) -> Seq<Square> {
        squares(self.block@)
    }
}

impl Block {
    /// The piece fits the machine: its squares, the anchor among them, lie
    /// close together.
    pub open spec fn wf(&self) -> bool {
        close(with_anchor(self@))
    }

    /// Shifts the squares so that the one that comes first, read row by
    /// row, stands at the origin, and leaves that one out.
    fn normalize(block: Vec<(i32, i32)>) -> (b: Self)
        requires
            block.len() > 0,
            close(squares(block@)),
        ensures
            b@ == normalized(squares(block@)),
            b.wf(),
    {
        let ghost cells = squares(block@);
        let mut minind: usize = 0;
        let mut i: usize = 1;
        while i < block.len()
            invariant
                1 <= i <= block.len(),
                cells == squares(block@),
                minind == anchor(cells, i as int),
                minind < i,
            decreases block.len() - i,
        {
            let (x, y) = block[i];
            let (minx, miny) = block[minind];
            assert(cells[i as int] == (x as int, y as int));
            assert(cells[minind as int] == (minx as int, miny as int));
            if miny > y || (miny == y && x < minx) {
                minind = i;
            }
            i += 1;
        }
        let (minx, miny) = block[minind];
        let mut out: Vec<(i32, i32)> = Vec::new();
        let mut i: usize = 0;
        while i < block.len()
            invariant
                i <= block.len(),
                minind < block.len(),
                cells == squares(block@),
                close(cells),
                (minx, miny) == block@[minind as int],
                out@.len() == if i <= minind {
                    i as int
                } else {
                    i - 1
                },
                forall|n: int|
                    0 <= n < out@.len() ==> ((#[trigger] out@[n]).0 as int, out@[n].1 as int)
                        == offsets(cells, minind as int)[n],
            decreases block.len() - i,
        {
            if i != minind {
                let (x, y) = block[i];
                proof {
                    let a = cells[i as int];
                    let b = cells[minind as int];
                    assert(a.0 - b.0 <= i32::MAX && a.1 - b.1 <= i32::MAX);
                    assert(b.0 - a.0 <= i32::MAX && b.1 - a.1 <= i32::MAX);
                }
                let ghost before = out@;
                out.push((x - minx, y - miny));
                proof {
                    let n = before.len() as int;
                    assert(cells[minind as int] == (minx as int, miny as int));
                    assert(offsets(cells, minind as int)[n] == (x - minx, y - miny));
                    assert forall|m: int| 0 <= m < out@.len() implies ((#[trigger] out@[m]).0 as int, out@[m].1 as int)
                        == offsets(cells, minind as int)[m] by {
                        if m < n {
                            assert(out@[m] == before[m]);
                        }
                    }
                }
            }
            i += 1;
        }
        let b = Block { block: out };
        proof {
            assert(b@ =~= normalized(cells));
            lemma_offsets_close(cells, minind as int);
        }
        b
    }

    /// The piece drawn by `str`, a picture of `h` lines of `l` characters
    /// written one after the other, in which `1` marks a square of the
    /// piece: `("010111010", 3, 3)` is the plus sign.
    pub fn new(str: &str, l: i32, h: i32) -> (b: Self)
        requires
            l > 0,
            h > 0,
            l * h <= str@.len(),
            marked(str@, l as int, h - 1, l as int).len() > 0,
        ensures
            b@ == normalized(marked(str@, l as int, h - 1, l as int)),
            b.wf(),
    {
        let mut block: Vec<(i32, i32)> = Vec::new();
        let len = str.unicode_len();
        let mut pos: usize = 0;
        let mut y: i32 = 0;
        proof {
            assert(marked(str@, l as int, 0, 0) =~= Seq::empty());
        }
        while y < h
            invariant
                0 <= y <= h,
                l > 0,
                l * h <= str@.len(),
                str@.len() == len,
                pos == y * l,
                squares(block@) == marked(str@, l as int, y as int, 0),
                forall|i: int|
                    0 <= i < block@.len() ==> 0 <= (#[trigger] block@[i]).0 < l && 0 <= block@[i].1 < h,
            decreases h - y,
        {
            let mut x: i32 = 0;
            while x < l
                invariant
                    0 <= x <= l,
                    0 <= y < h,
                    l > 0,
                    l * h <= str@.len(),
                    str@.len() == len,
                    pos == y * l + x,
                    squares(block@) == marked(str@, l as int, y as int, x as int),
                    forall|i: int|
                        0 <= i < block@.len() ==> 0 <= (#[trigger] block@[i]).0 < l && 0
                            <= block@[i].1 < h,
                decreases l - x,
            {
                assert(y * l + x < l * h) by (nonlinear_arith)
                    requires
                        0 <= x < l,
                        0 <= y < h,
                ;
                let c = str.get_char(pos);
                if c == '1' {
                    block.push((x, y));
                    assert(squares(block@) =~= marked(str@, l as int, y as int, x as int).push(
                        (x as int, y as int),
                    ));
                }
                pos += 1;
                x += 1;
            }
            assert((y + 1) * l == y * l + l) by (nonlinear_arith);
            y += 1;
        }
        proof {
            let cells = squares(block@);
            assert forall|i: int, j: int| 0 <= i < cells.len() && 0 <= j < cells.len() implies {
                let a = #[trigger] cells[i];
                let b = #[trigger] cells[j];
                a.0 - b.0 <= i32::MAX && a.1 - b.1 <= i32::MAX
            } by {
                assert(0 <= block@[i].0 < l && 0 <= block@[j].0 < l);
            }
        }
        Self::normalize(block)
    }

    /// The piece mirrored left to right.
    pub fn flip(&self) -> (b: Self)
        requires
            self.wf(),
        ensures
            b@ == normalized(with_anchor(self@).map_values(|p: Square| mirrored(p))),
            b.wf(),
    {
        let ghost src = with_anchor(self@);
        let mut flip_block: Vec<(i32, i32)> = Vec::new();
        flip_block.push((0, 0));
        let mut i: usize = 0;
        while i < self.block.len()
            invariant
                i <= self.block.len(),
                src == with_anchor(self@),
                close(src),
                flip_block@.len() == i + 1,
                forall|n: int|
                    0 <= n <= i ==> ((#[trigger] flip_block@[n]).0 as int, flip_block@[n].1 as int)
                        == mirrored(src[n]),
            decreases self.block.len() - i,
        {
            let (x, y) = self.block[i];
            proof {
                let a = src[i + 1];
                let o = src[0];
                assert(a == (x as int, y as int));
                assert(o.0 - a.0 <= i32::MAX);
            }
            flip_block.push((-x, y));
            i += 1;
        }
        proof {
            let want = src.map_values(|p: Square| mirrored(p));
            assert(squares(flip_block@) =~= want);
            assert forall|i: int, j: int| 0 <= i < want.len() && 0 <= j < want.len() implies {
                let a = #[trigger] want[i];
                let b = #[trigger] want[j];
                a.0 - b.0 <= i32::MAX && a.1 - b.1 <= i32::MAX
            } by {
                let p = src[i];
                let q = src[j];
                assert(q.0 - p.0 <= i32::MAX && p.1 - q.1 <= i32::MAX);
            }
        }
        Block::normalize(flip_block)
    }

    /// The piece after `num` quarter turns about its anchor.
    pub fn rotate(&self, num: u8) -> (b: Self)
        requires
            self.wf(),
        ensures
            b@ == normalized(with_anchor(self@).map_values(|p: Square| turned(p, num as nat))),
            b.wf(),
    {
        let ghost src = with_anchor(self@);
        let mut rotate_block: Vec<(i32, i32)> = Vec::new();
        rotate_block.push((0, 0));
        proof {
            lemma_turned_origin(num as nat);
        }
        let mut i: usize = 0;
        while i < self.block.len()
            invariant
                i <= self.block.len(),
                src == with_anchor(self@),
                close(src),
                rotate_block@.len() == i + 1,
                forall|n: int|
                    0 <= n <= i ==> ((#[trigger] rotate_block@[n]).0 as int, rotate_block@[n].1 as int)
                        == turned(src[n], num as nat),
            decreases self.block.len() - i,
        {
            let (x, y) = self.block[i];
            let mut nx = x;
            let mut ny = y;
            proof {
                let a = src[i + 1];
                let o = src[0];
                assert(a == (x as int, y as int));
                assert(o.0 - a.0 <= i32::MAX && a.0 - o.0 <= i32::MAX);
                assert(o.1 - a.1 <= i32::MAX && a.1 - o.1 <= i32::MAX);
            }
            let mut t: u8 = 0;
            while t < num
                invariant
                    t <= num,
                    -i32::MAX <= x <= i32::MAX,
                    -i32::MAX <= y <= i32::MAX,
                    -i32::MAX <= nx <= i32::MAX,
                    -i32::MAX <= ny <= i32::MAX,
                    (nx as int, ny as int) == turned((x as int, y as int), t as nat),
                decreases num - t,
            {
                let (a, b) = (-ny, nx);
                nx = a;
                ny = b;
                t += 1;
            }
            rotate_block.push((nx, ny));
            i += 1;
        }
        proof {
            let want = src.map_values(|p: Square| turned(p, num as nat));
            assert(squares(rotate_block@) =~= want);
            assert forall|i: int, j: int| 0 <= i < want.len() && 0 <= j < want.len() implies {
                let a = #[trigger] want[i];
                let b = #[trigger] want[j];
                a.0 - b.0 <= i32::MAX && a.1 - b.1 <= i32::MAX
            } by {
                let p = src[i];
                let q = src[j];
                assert(q.0 - p.0 <= i32::MAX && p.1 - q.1 <= i32::MAX);
                assert(p.0 - q.0 <= i32::MAX && q.1 - p.1 <= i32::MAX);
                lemma_turned_apart(p, q, num as nat);
            }
        }
        Block::normalize(rotate_block)
    }
}

/// The origin stays where it is under quarter turns.
pub proof fn lemma_turned_origin(n: nat)
    ensures
        turned((0, 0), n) == (0int, 0int),
    decreases n,
{
    if n > 0 {
        lemma_turned_origin((n - 1) as nat);
    }
}

/// Quarter turns keep two squares as far apart as they were, taking both
/// axes together.
pub proof fn lemma_turned_apart(p: Square, q: Square, n: nat)
    requires
        p.0 - q.0 <= i32::MAX,
        q.0 - p.0 <= i32::MAX,
        p.1 - q.1 <= i32::MAX,
        q.1 - p.1 <= i32::MAX,
    ensures
        turned(p, n).0 - turned(q, n).0 <= i32::MAX,
        turned(q, n).0 - turned(p, n).0 <= i32::MAX,
        turned(p, n).1 - turned(q, n).1 <= i32::MAX,
        turned(q, n).1 - turned(p, n).1 <= i32::MAX,
    decreases n,
{
    if n > 0 {
        lemma_turned_apart(p, q, (n - 1) as nat);
    }
}

impl Block {
    /// The squares of the piece but its anchor, as offsets from the anchor.
    pub fn cells(&self) -> (v: Vec<(i32, i32)>)
        ensures
            squares(v@) == self@,
    {
        let mut v: Vec<(i32, i32)> = Vec::new();
        let mut i: usize = 0;
        while i < self.block.len()
            invariant
                i <= self.block.len(),
                v@ == self.block@.take(i as int),
            decreases self.block.len() - i,
        {
            v.push(self.block[i]);
            assert(v@ =~= self.block@.take(i + 1));
            i += 1;
        }
        assert(v@ =~= self.block@);
        v
    }

    /// Whether the two pieces list the same squares in the same order.
    pub fn same_squares(&self, other: &Block) -> (r: bool)
        ensures
            r == (self@ == other@),
    {
        if self.block.len() != other.block.len() {
            assert(self@.len() != other@.len());
            return false;
        }
        let mut i: usize = 0;
        while i < self.block.len()
            invariant
                i <= self.block.len(),
                self.block.len() == other.block.len(),
                forall|n: int| 0 <= n < i ==> #[trigger] self@[n] == other@[n],
            decreases self.block.len() - i,
        {
            let (a, b) = self.block[i];
            let (c, d) = other.block[i];
            if a != c || b != d {
                assert(self@[i as int] != other@[i as int]);
                return false;
            }
            i += 1;
        }
        assert(self@ =~= other@);
        true
    }
}

impl PartialEq for Block {
    /// Whether the first square listed for this piece is one of the squares
    /// of the other; a piece of no square but the anchor equals every piece.
    fn eq(&self, other: &Self) -> (r: bool) {
        if self.block.len() == 0 {
            return true;
        }
        let (x, y) = self.block[0];
        let mut j: usize = 0;
        while j < other.block.len()
            invariant
                j <= other.block.len(),
                self.block.len() > 0,
                (x, y) == self.block@[0],
                forall|n: int| 0 <= n < j ==> #[trigger] other@[n] != self@[0],
            decreases other.block.len() - j,
        {
            let (a, b) = other.block[j];
            if a == x && b == y {
                assert(other@[j as int] == self@[0]);
                return true;
            }
            j += 1;
        }
        false
    }
}

impl vstd::std_specs::cmp::PartialEqSpecImpl for Block {
    /// `==` on pieces is what `eq_spec` says.
    open spec fn obeys_eq_spec() -> bool {
        true
    }

    /// The first square listed for this piece is one of the squares of the
    /// other, or this piece lists no square.
    open spec fn eq_spec(&self, other: &Block) -> bool {
        self@.len() == 0 || other@.contains(self@[0])
    }
}

impl Eq for Block {

}

/// Which placings of a piece a puzzle allows.
#[derive(Debug)]
pub enum TargetType {
    ROTATE,
    FLIP,
    ROTATEFLIP,
}

/// The shapes of a list of pieces.
pub open spec fn shapes(v: Seq<Block>) -> Seq<Seq<Square>> {
    Seq::new(v.len(), |i: int| v[i]@)
}

/// The shape of a piece after `n` quarter turns.
pub open spec fn rotated(shape: Seq<Square>, n: nat) -> Seq<Square> {
    normalized(with_anchor(shape).map_values(|p: Square| turned(p, n)))
}

/// The shape of a piece mirrored left to right.
pub open spec fn flipped(shape: Seq<Square>) -> Seq<Square> {
    normalized(with_anchor(shape).map_values(|p: Square| mirrored(p)))
}

/// The placings of a shape that a puzzle of the given kind allows, in the
/// order in which they are made; a shape may occur more than once.
pub open spec fn placings(shape: Seq<Square>, kind: TargetType) -> Seq<Seq<Square>> {
    match kind {
        TargetType::ROTATE => seq![
            rotated(shape, 0),
            rotated(shape, 1),
            rotated(shape, 2),
            rotated(shape, 3),
        ],
        TargetType::FLIP => seq![flipped(shape), shape],
        TargetType::ROTATEFLIP => seq![
            rotated(shape, 0),
            rotated(flipped(shape), 0),
            rotated(shape, 1),
            rotated(flipped(shape), 1),
            rotated(shape, 2),
            rotated(flipped(shape), 2),
            rotated(shape, 3),
            rotated(flipped(shape), 3),
        ],
    }
}

/// The list without its repetitions: each entry where it first occurs.
pub open spec fn distinct<T>(s: Seq<T>) -> Seq<T>
    decreases s.len(),
{
    if s.len() == 0 {
        s
    } else if distinct(s.drop_last()).contains(s.last()) {
        distinct(s.drop_last())
    } else {
        distinct(s.drop_last()).push(s.last())
    }
}

/// A piece of a puzzle in all the placings the puzzle allows.
#[derive(Debug)]
pub struct TargetBlock {
    block: Vec<Block>,
    id: char,
    used: bool,
}

/// A character may have this code: it is no surrogate and not above 0x10FFFF.
pub open spec fn scalar_value(code: u32) -> bool {
    code <= 0xD7FF || (0xE000 <= code && code <= 0x10FFFF)
}

/// `char::from_u32` of std, which is documented to return the character
/// with the given code, and `None` exactly where the code is no Unicode
/// scalar value.
#[verifier::external_body]
fn char_of(code: u32) -> (c: Option<char>)
    ensures
        match c {
            Some(ch) => ch as u32 == code && scalar_value(code),
            None => !scalar_value(code),
        },
{
    char::from_u32(code)
}

/// Adds a piece to a list unless the list holds its shape already.
fn push_new(list: &mut Vec<Block>, b: Block)
    requires
        b.wf(),
        forall|i: int| 0 <= i < old(list)@.len() ==> (#[trigger] old(list)@[i]).wf(),
    ensures
        shapes(final(list)@) == if shapes(old(list)@).contains(b@) {
            shapes(old(list)@)
        } else {
            shapes(old(list)@).push(b@)
        },
        forall|i: int| 0 <= i < final(list)@.len() ==> (#[trigger] final(list)@[i]).wf(),
{
    let mut i: usize = 0;
    while i < list.len()
        invariant
            i <= list.len(),
            *list == *old(list),
            forall|n: int| 0 <= n < list@.len() ==> (#[trigger] list@[n]).wf(),
            forall|n: int| 0 <= n < i ==> #[trigger] shapes(list@)[n] != b@,
        decreases list.len() - i,
    {
        if list[i].same_squares(&b) {
            assert(shapes(list@)[i as int] == b@);
            return ;
        }
        i += 1;
    }
    list.push(b);
    assert(shapes(list@) =~= shapes(old(list)@).push(b@));
}

impl TargetBlock {
    /// The shapes in which the piece may be placed, each once.
    pub closed spec fn shapes(&self) -> Seq<Seq<Square>> {
        shapes(self.block@)
    }

    /// The character that marks the piece on the board.
    pub closed spec fn id(&self) -> char {
        self.id
    }

    /// Whether the piece is placed at the moment.
    pub closed spec fn used(&self) -> bool {
        self.used
    }

    /// The character that marks the piece on the board.
    pub fn mark(&self) -> (c: char)
        ensures
            c == self.id(),
    {
        self.id
    }

    /// Whether the piece is placed at the moment.
    pub fn is_used(&self) -> (u: bool)
        ensures
            u == self.used(),
    {
        self.used
    }

    /// In how many shapes the piece may be placed.
    pub fn shape_count(&self) -> (n: usize)
        ensures
            n == self.shapes().len(),
    {
        self.block.len()
    }

    /// The squares of the `i`-th shape of the piece.
    pub fn shape(&self, i: usize) -> (v: Vec<(i32, i32)>)
        requires
            i < self.shapes().len(),
        ensures
            squares(v@) == self.shapes()[i as int],
    {
        self.block[i].cells()
    }

    /// The piece drawn by `str` (see `Block::new`) in every placing that a
    /// puzzle of the given kind allows, each shape once, in the order in
    /// which they first come up; marked on the board by the character with
    /// code `id`.
    pub fn new(str: &str, l: i32, h: i32, id: u32, targettype: &TargetType) -> (t: Self)
        requires
            l > 0,
            h > 0,
            l * h <= str@.len(),
            marked(str@, l as int, h - 1, l as int).len() > 0,
            scalar_value(id),
        ensures
            t.shapes() == distinct(
                placings(normalized(marked(str@, l as int, h - 1, l as int)), *targettype),
            ),
            t.id() as u32 == id,
            !t.used(),
    {
        let block = Block::new(str, l, h);
        let ghost shape = block@;
        let mut list: Vec<Block> = Vec::new();
        let ghost all = placings(shape, *targettype);
        proof {
            assert(shapes(list@) =~= distinct(all.take(0)));
        }
        match targettype {
            TargetType::ROTATE => {
                let mut i: u8 = 0;
                while i <= 3
                    invariant
                        i <= 4,
                        block.wf(),
                        shape == block@,
                        all == placings(shape, TargetType::ROTATE),
                        shapes(list@) == distinct(all.take(i as int)),
                        forall|n: int| 0 <= n < list@.len() ==> (#[trigger] list@[n]).wf(),
                    decreases 4 - i,
                {
                    proof {
                        assert(all.take(i + 1).drop_last() =~= all.take(i as int));
                        assert(all.take(i + 1).last() == rotated(shape, i as nat));
                    }
                    push_new(&mut list, block.rotate(i));
                    i += 1;
                }
                assert(all.take(4) =~= all);
            },
            TargetType::FLIP => {
                proof {
                    assert(all.take(1).drop_last() =~= all.take(0));
                    assert(all.take(2).drop_last() =~= all.take(1));
                    assert(all.take(2) =~= all);
                }
                push_new(&mut list, block.flip());
                assert(shapes(list@) == distinct(all.take(1)));
                push_new(&mut list, block);
            },
            TargetType::ROTATEFLIP => {
                let mut i: u8 = 0;
                while i <= 3
                    invariant
                        i <= 4,
                        block.wf(),
                        shape == block@,
                        all == placings(shape, TargetType::ROTATEFLIP),
                        shapes(list@) == distinct(all.take(2 * i)),
                        forall|n: int| 0 <= n < list@.len() ==> (#[trigger] list@[n]).wf(),
                    decreases 4 - i,
                {
                    proof {
                        assert(all.take(2 * i + 1).drop_last() =~= all.take(2 * i));
                        assert(all.take(2 * i + 2).drop_last() =~= all.take(2 * i + 1));
                        assert(all.take(2 * i + 1).last() == rotated(shape, i as nat));
                        assert(all.take(2 * i + 2).last() == rotated(flipped(shape), i as nat));
                    }
                    push_new(&mut list, block.rotate(i));
                    assert(shapes(list@) == distinct(all.take(2 * i + 1)));
                    push_new(&mut list, block.flip().rotate(i));
                    i += 1;
                }
                assert(all.take(8) =~= all);
            },
        }
        let mark = match char_of(id) {
            Some(c) => c,
            None => ' ',
        };
        TargetBlock { block: list, id: mark, used: false }
    }
}

} // verus!
