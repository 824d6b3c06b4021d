//! The Towers of Hanoi: `n` discs, numbered from the smallest, on three
//! pegs; all are to go from peg 0 to peg 2, one at a time, never a larger
//! disc on a smaller one.
use super::{par_map, PuzzleError, PuzzleResult};
use std::collections::BTreeSet;
use vstd::prelude::*;

verus! {

/// Two to the power of `n`.
pub open spec fn two_to(n: nat) -> nat
    decreases n,
{
    if n == 0 {
        1
    } else {
        2 * two_to((n - 1) as nat)
    }
}

/// The number of moves that `n` discs need: the `n - 1` smaller discs are
/// moved aside, the largest is moved, the smaller ones are moved onto it.
pub open spec fn moves_needed(n: nat) -> nat
    decreases n,
{
    if n == 0 {
        0
    } else {
        2 * moves_needed((n - 1) as nat) + 1
    }
}

/// The moves needed are one less than two to the number of discs.
pub proof fn lemma_moves_needed(n: nat)
    ensures
        moves_needed(n) + 1 == two_to(n),
    decreases n,
{
    if n > 0 {
        lemma_moves_needed((n - 1) as nat);
    }
}

/// More discs need more moves.
pub proof fn lemma_moves_needed_grows(m: nat, n: nat)
    requires
        m <= n,
    ensures
        moves_needed(m) <= moves_needed(n),
    decreases n,
{
    if m < n {
        lemma_moves_needed_grows(m, (n - 1) as nat);
    }
}

/// Up to 32 discs need no more moves than a `u32` can count: two to the
/// 32 less one.
pub proof fn lemma_moves_fit(n: nat)
    requires
        n <= 32,
    ensures
        moves_needed(n) <= u32::MAX,
        n <= 31 ==> two_to(n) <= 0x8000_0000,
{
    assert(two_to(32) == 0x1_0000_0000) by {
        reveal_with_fuel(two_to, 33);
    }
    lemma_moves_needed(32);
    lemma_moves_needed_grows(n, 32);
    if n <= 31 {
        lemma_moves_needed(n);
        lemma_moves_needed_grows(n, 31);
        lemma_moves_needed(31);
    }
}

/// The peg that is neither `from` nor `to`.
pub open spec fn spare(from: usize, to: usize) -> usize {
    (3 - from - to) as usize
}

/// The moves, each as (from, to, disc), that take the `val` smallest discs
/// from peg `from` to peg `to`.
pub open spec fn moves(from: usize, to: usize, val: nat) -> Seq<(usize, usize, usize)>
    decreases val,
{
    if val == 0 {
        Seq::empty()
    } else if val == 1 {
        seq![(from, to, 1usize)]
    } else {
        moves(from, spare(from, to), (val - 1) as nat) + seq![(from, to, val as usize)] + moves(
            spare(from, to),
            to,
            (val - 1) as nat,
        )
    }
}

/// As many moves are listed as are needed.
pub proof fn lemma_moves_len(from: usize, to: usize, val: nat)
    ensures
        moves(from, to, val).len() == moves_needed(val),
    decreases val,
{
    if val > 1 {
        lemma_moves_len(from, spare(from, to), (val - 1) as nat);
        lemma_moves_len(spare(from, to), to, (val - 1) as nat);
    } else if val == 1 {
        assert(moves_needed(0) == 0);
    }
}

/// The move at place `pos` among those that take `n` discs from `from` to
/// `to`, found without listing them: the middle move is that of the
/// largest disc, the moves before it take the smaller discs aside, those
/// after it bring them back. A place past the end is followed down in
/// the same way; with no disc at all the move names disc 0.
pub open spec fn nth_move(from: usize, to: usize, n: nat, pos: nat) -> (usize, usize, usize)
    decreases n,
{
    if n == 0 {
        (from, to, 0usize)
    } else if n == 1 {
        (from, to, 1usize)
    } else {
        let center = moves_needed(n) / 2;
        if pos == center {
            (from, to, n as usize)
        } else if pos < center {
            nth_move(from, spare(from, to), (n - 1) as nat, pos)
        } else {
            nth_move(spare(from, to), to, (n - 1) as nat, (pos - 1 - center) as nat)
        }
    }
}

/// The move found for a place is the move listed at that place.
pub proof fn lemma_nth_move(from: usize, to: usize, n: nat, pos: nat)
    requires
        n >= 1,
        pos < moves_needed(n),
    ensures
        nth_move(from, to, n, pos) == moves(from, to, n)[pos as int],
    decreases n,
{
    if n > 1 {
        let m = (n - 1) as nat;
        let center = moves_needed(n) / 2;
        assert(center == moves_needed(m));
        lemma_moves_len(from, spare(from, to), m);
        lemma_moves_len(spare(from, to), to, m);
        if pos < center {
            lemma_nth_move(from, spare(from, to), m, pos);
        } else if pos > center {
            lemma_nth_move(spare(from, to), to, m, (pos - 1 - center) as nat);
        }
    } else {
        assert(moves_needed(1) == 1) by {
            reveal_with_fuel(moves_needed, 2);
        }
    }
}

/// `2u32.pow(e)` of std, which is documented to raise the number to the
/// power `e`; the power fits a `u32` for every `e` the contract admits.
#[verifier::external_body]
fn power_of_two(e: u32) -> (r: u32)
    requires
        e <= 31,
    ensures
        r == two_to(e as nat),
{
    2_u32.pow(e)
}

/// The discs 1 to `n`.
pub open spec fn discs(n: nat) -> Set<usize> {
    Set::new(|d: usize| 1 <= d <= n)
}

/// The state of the puzzle as the contracts see it.
#[verifier::ext_equal]
pub struct Pegs {
    /// The discs on each of the three pegs.
    pub towers: Seq<Set<usize>>,
    /// The number of discs.
    pub n: nat,
    /// How many moves of the solution have been made.
    pub state: nat,
    /// The moves made, each as (from, to, disc).
    pub history: Seq<(usize, usize, usize)>,
    /// For each number of discs up to `n`, the moves it needs.
    pub counts: Seq<u32>,
}

impl Pegs {
    /// Three pegs that hold discs from 1 to `n` only, `n` at most 31, and
    /// the table of the moves needed.
    pub open spec fn wf(self) -> bool {
        &&& self.towers.len() == 3
        &&& forall|i: int|
            0 <= i < 3 ==> (#[trigger] self.towers[i]).finite() && self.towers[i].subset_of(discs(self.n))
        &&& self.n <= 31
        &&& self.state <= u32::MAX
        &&& self.counts.len() == self.n + 1
        &&& forall|i: int| 0 <= i <= self.n ==> #[trigger] self.counts[i] == moves_needed(i as nat)
    }

    /// All discs on peg 0, nothing played yet.
    pub open spec fn fresh(n: nat) -> Pegs {
        Pegs {
            towers: seq![discs(n), Set::empty(), Set::empty()],
            n,
            state: 0,
            history: Seq::empty(),
            counts: Seq::new(n + 1, |i: int| moves_needed(i as nat) as u32),
        }
    }
}

/// The two pegs of a move are pegs, and not the same peg.
pub open spec fn pegs(from: usize, to: usize) -> bool {
    from <= 2 && to <= 2 && from != to
}

/// The message of the error for a move between pegs that do not exist.
pub open spec fn no_such_peg() -> Seq<char> {
    "invalid index"@
}

/// The message of the error for a move from a peg that holds no disc.
pub open spec fn nothing_to_take() -> Seq<char> {
    "tower of from is empty."@
}

/// The message of the error for a move onto a smaller disc.
pub open spec fn too_large() -> Seq<char> {
    "cannot stack the tower"@
}

/// The message of the error for a move of a disc that is not on top.
pub open spec fn not_on_top() -> Seq<char> {
    "invalid value"@
}

/// `m` is the smallest disc of the tower, the one on top.
pub open spec fn tops(tower: Set<usize>, m: usize) -> bool {
    tower.contains(m) && forall|e: usize| tower.contains(e) ==> m <= e
}

/// Why the move of disc `val` between two towers is refused; `None` where
/// it is made. See [`Pegs::refusal`].
pub open spec fn refused(towers: Seq<Set<usize>>, from: usize, to: usize, val: usize) -> Option<
    Seq<char>,
> {
    if from > 2 && to > 2 {
        Some(no_such_peg())
    } else if towers[from as int] =~= Set::empty() {
        Some(nothing_to_take())
    } else if exists|a: usize, b: usize|
        tops(towers[from as int], a) && tops(towers[to as int], b) && a > b {
        Some(too_large())
    } else if !tops(towers[from as int], val) {
        Some(not_on_top())
    } else {
        None
    }
}

impl Pegs {
    /// `m` is the smallest disc on peg `i`, the one on top.
    pub open spec fn on_top(self, i: int, m: usize) -> bool {
        tops(self.towers[i], m)
    }

    /// Why the move of disc `val` from peg `from` to peg `to` is refused;
    /// `None` where it is made. The grounds are tried in this order: both
    /// pegs out of range; nothing on `from`; the top of `from` larger than
    /// the top of `to`; `val` not the top of `from`.
    pub open spec fn refusal(self, from: usize, to: usize, val: usize) -> Option<Seq<char>> {
        refused(self.towers, from, to, val)
    }

    /// The state after disc `val` is moved from peg `from` to peg `to` and
    /// the move is noted.
    pub open spec fn moved(self, from: usize, to: usize, val: usize) -> Pegs {
        let taken = self.towers.update(from as int, self.towers[from as int].remove(val));
        Pegs {
            towers: taken.update(to as int, taken[to as int].insert(val)),
            history: self.history.push((from, to, val)),
            ..self
        }
    }

    /// One move of the solution: the move at the place that `state` names
    /// is made and counted, or refused.
    pub open spec fn step(self) -> Result<Pegs, Seq<char>> {
        let (from, to, val) = nth_move(0, 2, self.n, self.state);
        match self.refusal(from, to, val) {
            Some(e) => Err(e),
            None => Ok(Pegs { state: self.state + 1, ..self.moved(from, to, val) }),
        }
    }

    /// `k` moves of the solution, as far as none is refused: the state
    /// reached, and the refusal that stopped the play if there was one.
    pub open spec fn played(self, k: nat) -> (Pegs, Result<(), Seq<char>>)
        decreases k,
    {
        if k == 0 {
            (self, Ok(()))
        } else {
            match self.step() {
                Err(e) => (self, Err(e)),
                Ok(next) => next.played((k - 1) as nat),
            }
        }
    }

    /// The state after peg 0 and peg 2 change places and the solution
    /// counts as played.
    pub open spec fn turned_over(self) -> Pegs {
        Pegs {
            towers: seq![self.towers[2], self.towers[1], self.towers[0]],
            state: moves_needed(self.n),
            ..self
        }
    }

    /// The state after the puzzle is solved at once: all moves of the
    /// solution noted, peg 0 and peg 2 in each other's place.
    pub open spec fn solved_at_once(self) -> Pegs {
        Pegs { history: moves(0, 2, self.n), ..self.turned_over() }
    }

    /// The state after the last move noted is taken back: the disc is moved
    /// back, the move back noted in place of the move, one move less counted.
    pub open spec fn taken_back(self) -> Pegs {
        let (from, to, val) = self.history.last();
        Pegs {
            state: (self.state - 1) as nat,
            ..Pegs { history: self.history.drop_last(), ..self }.moved(to, from, val)
        }
    }

    /// A move that is made keeps the state well formed.
    pub proof fn lemma_moved(self, from: usize, to: usize, val: usize)
        requires
            self.wf(),
            from <= 2,
            to <= 2,
            self.towers[from as int].contains(val),
        ensures
            self.moved(from, to, val).wf(),
    {
        let m = self.moved(from, to, val);
        assert forall|i: int| 0 <= i < 3 implies (#[trigger] m.towers[i]).finite() && m.towers[i].subset_of(
            discs(m.n),
        ) by {
            assert(self.towers[i].finite() && self.towers[i].subset_of(discs(self.n)));
            assert(self.towers[from as int].subset_of(discs(self.n)));
        }
    }
}

/// The moves found by place go between two different pegs and move a disc
/// of the puzzle.
pub proof fn lemma_nth_move_pegs(from: usize, to: usize, n: nat, pos: nat)
    requires
        pegs(from, to),
        n >= 1,
        n <= usize::MAX,
    ensures
        pegs(nth_move(from, to, n, pos).0, nth_move(from, to, n, pos).1),
        1 <= nth_move(from, to, n, pos).2 <= n,
    decreases n,
{
    if n > 1 {
        let center = moves_needed(n) / 2;
        if pos < center {
            lemma_nth_move_pegs(from, spare(from, to), (n - 1) as nat, pos);
        } else if pos > center {
            lemma_nth_move_pegs(spare(from, to), to, (n - 1) as nat, (pos - 1 - center) as nat);
        }
    }
}

/// How a play ended: well, or with the message of its error.
pub open spec fn ending(r: PuzzleResult<()>) -> Result<(), Seq<char>> {
    match r {
        Ok(_) => Ok(()),
        Err(e) => Err(e@),
    }
}

/// A solver for the Towers of Hanoi.
#[derive(Debug)]
pub struct HanoiSolver {
    pub towers: [BTreeSet<usize>; 3],
    /// The number of discs.
    pub n: usize,
    /// How many moves of the solution have been made.
    pub state: u32,
    /// The moves made, each as (from, to, disc).
    pub history: Vec<(usize, usize, usize)>,
    /// For each number of discs up to `n`, the moves it needs.
    pub cache_count: Vec<u32>,
}

impl View for HanoiSolver {
    type V = Pegs;

    open spec fn view(&self) -> Pegs {
        Pegs {
            towers: Seq::new(3, |i: int| self.towers@[i]@),
            n: self.n as nat,
            state: self.state as nat,
            history: self.history@,
            counts: self.cache_count@,
        }
    }
}

/// A set that holds the discs 1 to `n`.
fn full_tower(n: usize) -> (heap: BTreeSet<usize>)
    ensures
        heap@ == discs(n as nat),
        heap@.finite(),
{
    let mut heap: BTreeSet<usize> = BTreeSet::new();
    let mut i: usize = 0;
    while i < n
        invariant
            i <= n,
            heap@.finite(),
            heap@ == discs(i as nat),
        decreases n - i,
    {
        i += 1;
        heap.insert(i);
        assert(heap@ =~= discs(i as nat));
    }
    heap
}

impl HanoiSolver {
    /// The state is one the solver can work on.
    pub open spec fn wf(&self) -> bool {
        self@.wf()
    }

    /// A puzzle of `n` discs, all on peg 0.
    pub fn new(n: usize) -> (s: Self)
        requires
            n <= 31,
        ensures
            s@ == Pegs::fresh(n as nat),
            s.wf(),
    {
        let heap = full_tower(n);
        let mut cache_count: Vec<u32> = Vec::new();
        cache_count.push(0);
        let mut i: usize = 1;
        while i <= n
            invariant
                1 <= i <= n + 1,
                n <= 31,
                cache_count@.len() == i,
                forall|k: int| 0 <= k < i ==> #[trigger] cache_count@[k] == moves_needed(k as nat),
            decreases n + 1 - i,
        {
            cache_count.push(Self::_opt_count(i));
            i += 1;
        }
        let s = HanoiSolver {
            towers: [heap, BTreeSet::new(), BTreeSet::new()],
            n,
            state: 0,
            history: Vec::new(),
            cache_count,
        };
        proof {
            assert(s@.towers =~= Pegs::fresh(n as nat).towers);
            assert(s@.counts =~= Pegs::fresh(n as nat).counts);
            assert(s@.history =~= Pegs::fresh(n as nat).history);
        }
        s
    }

    /// Puts all discs back on peg 0 and forgets the moves made.
    pub fn init(&mut self)
        requires
            old(self).wf(),
        ensures
            final(self)@ == Pegs::fresh(old(self)@.n),
            final(self).wf(),
    {
        let heap = full_tower(self.n);
        self.history = Vec::new();
        self.towers = [heap, BTreeSet::new(), BTreeSet::new()];
        self.state = 0;
        proof {
            assert(self@.towers =~= Pegs::fresh(self@.n).towers);
            assert(self@.counts =~= Pegs::fresh(self@.n).counts);
            assert(self@.history =~= Pegs::fresh(self@.n).history);
        }
    }

    /// The number of moves the puzzle needs.
    pub fn count(&self) -> (c: u32)
        requires
            self.wf(),
        ensures
            c == moves_needed(self@.n),
    {
        self.cache_count[self.n]
    }

    /// The moves needed for `n` discs, by the recurrence.
    pub fn _rec_count(n: usize) -> (c: u32)
        requires
            n <= 32,
        ensures
            c == moves_needed(n as nat),
        decreases n,
    {
        if n == 0 {
            0
        } else {
            proof {
                lemma_moves_fit(n as nat);
            }
            2 * Self::_rec_count(n - 1) + 1
        }
    }

    /// The moves needed for `n` discs, by the recurrence run forward.
    pub fn _tail_rec_count(n: usize) -> (c: u32)
        requires
            n <= 32,
        ensures
            c == moves_needed(n as nat),
    {
        proof {
            lemma_doubled(n as nat, 0);
            lemma_moves_needed(n as nat);
            lemma_moves_fit(n as nat);
            assert(two_to(n as nat) * 1 == two_to(n as nat));
        }
        Self::__tail_rec_count(n, 0)
    }

    /// `val` after `n` steps of doubling and adding one.
    pub fn __tail_rec_count(n: usize, val: u32) -> (c: u32)
        requires
            doubled(n as nat, val as nat) <= u32::MAX,
        ensures
            c == doubled(n as nat, val as nat),
        decreases n,
    {
        if n == 0 {
            val
        } else {
            proof {
                lemma_doubled_grows((n - 1) as nat, 2 * val as nat + 1);
            }
            Self::__tail_rec_count(n - 1, 2 * val + 1)
        }
    }

    /// The moves needed for `n` discs, counted in a loop.
    pub fn _for_count(n: usize) -> (c: u32)
        requires
            n <= 32,
        ensures
            c == moves_needed(n as nat),
    {
        let mut count: u32 = 0;
        let mut i: usize = 0;
        while i < n
            invariant
                i <= n <= 32,
                count == moves_needed(i as nat),
            decreases n - i,
        {
            proof {
                lemma_moves_fit((i + 1) as nat);
            }
            count = 2 * count + 1;
            i += 1;
        }
        count
    }

    /// The moves needed for `n` discs, in closed form: two to the `n`, less one.
    pub fn _opt_count(n: usize) -> (c: u32)
        requires
            n <= 31,
        ensures
            c == moves_needed(n as nat),
    {
        proof {
            lemma_moves_needed(n as nat);
        }
        power_of_two(n as u32) - 1
    }

    /// The moves that take the `val` smallest discs from peg `from` to peg `to`.
    pub fn _all_run(from: usize, to: usize, val: usize) -> (vec: Vec<(usize, usize, usize)>)
        requires
            from + to <= 3,
            val >= 1,
        ensures
            vec@ == moves(from, to, val as nat),
        decreases val,
    {
        if val == 1 {
            let mut vec: Vec<(usize, usize, usize)> = Vec::new();
            vec.push((from, to, val));
            assert(vec@ =~= moves(from, to, 1));
            return vec;
        }
        let mut vec: Vec<(usize, usize, usize)> = Vec::new();
        let mut first = Self::_all_run(from, 3 - from - to, val - 1);
        vec.append(&mut first);
        vec.push((from, to, val));
        let mut second = Self::_all_run(3 - from - to, to, val - 1);
        vec.append(&mut second);
        assert(vec@ =~= moves(from, to, val as nat));
        vec
    }

    /// The move at place `pos` among those that take `n` discs from peg
    /// `from` to peg `to`.
    pub fn _find_next_from_to_val(&self, job: (usize, usize, usize), pos: u32) -> (next: (
        usize,
        usize,
        usize,
    ))
        requires
            self.wf(),
            job.0 + job.1 <= 3,
            job.2 <= self@.n,
            job.2 >= 1 || pos == 0,
        ensures
            next == nth_move(job.0, job.1, job.2 as nat, pos as nat),
        decreases job.2,
    {
        let (from, to, n) = job;
        if n == 1 {
            return (from, to, 1);
        }
        if n == 0 {
            return (from, to, n);
        }
        let count = self.cache_count[n];
        let center = count / 2;
        if pos == center {
            (from, to, n)
        } else if pos < center {
            self._find_next_from_to_val((from, 3 - from - to, n - 1), pos)
        } else {
            self._find_next_from_to_val((3 - from - to, to, n - 1), pos - 1 - center)
        }
    }

    /// The next move of the solution.
    pub fn next_from_to(&mut self) -> (next: (usize, usize, usize))
        requires
            old(self).wf(),
            old(self)@.n >= 1 || old(self)@.state == 0,
        ensures
            *final(self) == *old(self),
            next == nth_move(0, 2, old(self)@.n, old(self)@.state),
    {
        self._find_next_from_to_val((0, 2, self.n), self.state)
    }
}

/// `val` after `n` steps of doubling and adding one.
pub open spec fn doubled(n: nat, val: nat) -> nat
    decreases n,
{
    if n == 0 {
        val
    } else {
        doubled((n - 1) as nat, 2 * val + 1)
    }
}

/// Doubling and adding one never lowers a number.
pub proof fn lemma_doubled_grows(n: nat, val: nat)
    ensures
        val <= doubled(n, val),
    decreases n,
{
    if n > 0 {
        lemma_doubled_grows((n - 1) as nat, 2 * val + 1);
    }
}

/// `n` steps of doubling and adding one take `val` to two to the `n` times
/// `val + 1`, less one; from 0 they count the moves that `n` discs need.
pub proof fn lemma_doubled(n: nat, val: nat)
    ensures
        doubled(n, val) + 1 == two_to(n) * (val + 1),
    decreases n,
{
    if n > 0 {
        lemma_doubled((n - 1) as nat, 2 * val + 1);
        assert(two_to((n - 1) as nat) * (2 * val + 1 + 1) == two_to(n) * (val + 1)) by (nonlinear_arith)
            requires
                two_to(n) == 2 * two_to((n - 1) as nat),
        ;
    } else {
        assert(two_to(0) * (val + 1) == val + 1) by (nonlinear_arith)
            requires
                two_to(0) == 1,
        ;
    }
}

impl HanoiSolver {
    /// The disc on top of peg `i`: the smallest one there.
    pub fn top(&self, i: usize) -> (t: Option<usize>)
        requires
            self.wf(),
            i <= 2,
        ensures
            match t {
                Some(m) => self@.on_top(i as int, m),
                None => self@.towers[i as int] =~= Set::empty(),
            },
    {
        assert(self@.towers[i as int].subset_of(discs(self@.n)));
        let mut d: usize = 1;
        while d <= self.n
            invariant
                1 <= d <= self.n + 1,
                i <= 2,
                self.n <= 31,
                self@.towers[i as int] == self.towers@[i as int]@,
                self@.towers[i as int].subset_of(discs(self.n as nat)),
                forall|e: usize| 1 <= e < d ==> !self@.towers[i as int].contains(e),
            decreases self.n + 1 - d,
        {
            if self.towers[i].contains(&d) {
                return Some(d);
            }
            d += 1;
        }
        None
    }

    /// Moves disc `val` from peg `from` to peg `to` and notes the move.
    /// Only the disc on top of a peg can be moved, and only onto a peg
    /// whose top is no smaller.
    pub fn move_val(&mut self, from: usize, to: usize, val: usize) -> (r: PuzzleResult<usize>)
        requires
            old(self).wf(),
            (from <= 2 && to <= 2) || (from > 2 && to > 2),
        ensures
            final(self).wf(),
            match r {
                Ok(v) => v == val && old(self)@.refusal(from, to, val) is None && final(self)@ == old(
                    self,
                )@.moved(from, to, val),
                Err(e) => old(self)@.refusal(from, to, val) == Some(e@) && final(self)@ == old(self)@,
            },
    {
        if from > 2 && to > 2 {
            return Err(PuzzleError::new("invalid index"));
        }
        let top_from = self.top(from);
        let top_to = self.top(to);
        let a = match top_from {
            None => {
                return Err(PuzzleError::new("tower of from is empty."));
            },
            Some(a) => a,
        };
        let ghost start = self@;
        assert(!(start.towers[from as int] =~= Set::empty())) by {
            assert(start.towers[from as int].contains(a));
        }
        match top_to {
            Some(b) => {
                if a > b {
                    return Err(PuzzleError::new("cannot stack the tower"));
                }
                assert forall|x: usize, y: usize|
                    start.on_top(from as int, x) && start.on_top(to as int, y) implies !(x > y) by {
                    assert(x <= a && a <= x && y <= b && b <= y);
                }
            },
            None => {},
        }
        if val != a {
            assert(!start.on_top(from as int, val)) by {
                if start.on_top(from as int, val) {
                    assert(val <= a && a <= val);
                }
            }
            return Err(PuzzleError::new("invalid value"));
        }
        self.towers[from].remove(&val);
        self.towers[to].insert(val);
        self.history.push((from, to, val));
        proof {
            start.lemma_moved(from, to, val);
            assert(self@.towers =~= start.moved(from, to, val).towers);
        }
        Ok(val)
    }

    /// Takes back the last move noted: the disc goes back where it came
    /// from, and the move back is noted in place of the move.
    pub fn redo(&mut self)
        requires
            old(self).wf(),
            old(self)@.history.len() > 0 ==> {
                let (from, to, val) = old(self)@.history.last();
                &&& old(self)@.state >= 1
                &&& from <= 2 && to <= 2
                &&& old(self)@.refusal(to, from, val) is None
            },
        ensures
            final(self).wf(),
            old(self)@.history.len() == 0 ==> final(self)@ == old(self)@,
            old(self)@.history.len() > 0 ==> final(self)@ == old(self)@.taken_back(),
    {
        let ghost start = self@;
        match self.history.pop() {
            Some((from, to, val)) => {
                let ghost mid = self@;
                proof {
                    assert(mid == Pegs { history: start.history.drop_last(), ..start });
                }
                match self.move_val(to, from, val) {
                    Ok(_) => {},
                    Err(_) => {},
                }
                self.state -= 1;
            },
            None => {},
        }
    }

    /// Whether all discs stand on peg 2.
    pub fn has_finished(&self) -> (r: PuzzleResult<bool>)
        requires
            self.wf(),
        ensures
            r == Ok::<bool, PuzzleError>(self@.towers[2].len() == self@.n),
    {
        assert(self@.towers[2].finite());
        Ok(self.towers[2].len() == self.n)
    }

    /// Makes the next move of the solution.
    pub fn search(&mut self) -> (r: PuzzleResult<()>)
        requires
            old(self).wf(),
            old(self)@.n >= 1 || old(self)@.state == 0,
            old(self)@.state < u32::MAX,
        ensures
            final(self).wf(),
            match old(self)@.step() {
                Ok(next) => r is Ok && final(self)@ == next,
                Err(e) => r matches Err(x) && x@ == e && final(self)@ == old(self)@,
            },
    {
        proof {
            if self@.n >= 1 {
                lemma_nth_move_pegs(0, 2, self@.n, self@.state);
            }
        }
        let (from, to, val) = self.next_from_to();
        match self.move_val(from, to, val) {
            Err(e) => {
                return Err(e);
            },
            Ok(_) => {},
        }
        self.state += 1;
        Ok(())
    }

    /// Makes up to `cnt` further moves of the solution, but no more than
    /// the solution has; stops at the first move that is refused.
    pub fn opt_behaiver(&mut self, cnt: u32) -> (r: PuzzleResult<()>)
        requires
            old(self).wf(),
            cnt + old(self)@.state <= u32::MAX,
        ensures
            final(self).wf(),
            (final(self)@, ending(r)) == old(self)@.played(
                if moves_needed(old(self)@.n) <= old(self)@.state {
                    0
                } else if cnt + old(self)@.state <= moves_needed(old(self)@.n) {
                    cnt as nat
                } else {
                    (moves_needed(old(self)@.n) - old(self)@.state) as nat
                },
            ),
    {
        let state = self.state;
        let total = self.count();
        let end = if cnt + state <= total {
            cnt + state
        } else {
            total
        };
        let mut i = state;
        if end <= state {
            return Ok(());
        }
        while i < end
            invariant
                state <= i <= end,
                end <= total,
                state == old(self)@.state,
                self@.n == old(self)@.n,
                end == if cnt + state <= total {
                    cnt + state
                } else {
                    total as int
                },
                total == moves_needed(self@.n),
                self.wf(),
                self@.state == i,
                self@.played((end - i) as nat) == old(self)@.played((end - state) as nat),
            decreases end - i,
        {
            let ghost before = self@;
            let ghost k = (end - i) as nat;
            assert(before.played(k) == match before.step() {
                Err(e) => (before, Err::<(), Seq<char>>(e)),
                Ok(next) => next.played((k - 1) as nat),
            });
            match self.search() {
                Err(e) => {
                    return Err(e);
                },
                Ok(_) => {},
            }
            i += 1;
        }
        Ok(())
    }

    /// Plays the solution to its end. From the start, with all discs on
    /// peg 0, no move is refused and all discs end on peg 2.
    pub fn run(&mut self) -> (r: PuzzleResult<()>)
        requires
            old(self).wf(),
            moves_needed(old(self)@.n) + old(self)@.state <= u32::MAX,
        ensures
            final(self).wf(),
            (final(self)@, ending(r)) == old(self)@.played(
                if moves_needed(old(self)@.n) <= old(self)@.state {
                    0
                } else {
                    (moves_needed(old(self)@.n) - old(self)@.state) as nat
                },
            ),
            old(self)@ == Pegs::fresh(old(self)@.n) ==> r is Ok && final(self)@ == old(self)@.carried(
                0,
                2,
                old(self)@.n,
            ),
    {
        proof {
            if self@ == Pegs::fresh(self@.n) {
                Pegs::lemma_play_solves(self@.n);
            }
            assert(moves_needed(0) == 0);
        }
        let total = self.count();
        self.opt_behaiver(total)
    }
}

/// A piece of work on the way to the list of moves: either a whole job,
/// the `val` smallest discs to go from `from` to `to` (marked `true`), or
/// the single move of disc `val` (marked `false`).
pub type Job = (usize, usize, usize, bool);

/// The job can be carried out: a whole job names pegs whose numbers add up
/// to no more than 3, and at least one disc.
pub open spec fn doable(job: Job) -> bool {
    job.3 ==> job.0 + job.1 <= 3 && job.2 >= 1
}

/// The moves that a piece of work stands for.
pub open spec fn work(job: Job) -> Seq<(usize, usize, usize)> {
    if job.3 {
        moves(job.0, job.1, job.2 as nat)
    } else {
        seq![(job.0, job.1, job.2)]
    }
}

/// The moves that a list of pieces of work stands for, one after the other.
pub open spec fn joined(jobs: Seq<Job>) -> Seq<(usize, usize, usize)>
    decreases jobs.len(),
{
    if jobs.len() == 0 {
        Seq::empty()
    } else {
        joined(jobs.drop_last()) + work(jobs.last())
    }
}

/// The pieces into which a whole job falls: the smaller discs aside, the
/// largest disc across, the smaller discs back on top; or the one move of
/// the smallest disc.
pub fn make_vals(from: usize, to: usize, val: usize) -> (jobs: Vec<Job>)
    requires
        from + to <= 3,
        val >= 1,
    ensures
        joined(jobs@) == moves(from, to, val as nat),
        forall|i: int| 0 <= i < jobs@.len() ==> doable(#[trigger] jobs@[i]),
{
    let mut jobs: Vec<Job> = Vec::new();
    if val == 1 {
        jobs.push((from, to, val, false));
        proof {
            lemma_joined_push(Seq::empty(), (from, to, val, false));
            assert(jobs@ =~= Seq::<Job>::empty().push((from, to, val, false)));
            assert(joined(jobs@) =~= moves(from, to, 1));
        }
    } else {
        jobs.push((from, 3 - from - to, val - 1, true));
        let ghost one = jobs@;
        jobs.push((from, to, val, false));
        let ghost two = jobs@;
        jobs.push((3 - from - to, to, val - 1, true));
        proof {
            let a = (from, (3 - from - to) as usize, (val - 1) as usize, true);
            let b = (from, to, val, false);
            let c = ((3 - from - to) as usize, to, (val - 1) as usize, true);
            lemma_joined_push(Seq::empty(), a);
            lemma_joined_push(one, b);
            lemma_joined_push(two, c);
            assert(one =~= Seq::<Job>::empty().push(a));
            assert(two =~= one.push(b));
            assert(jobs@ =~= two.push(c));
            assert(joined(jobs@) =~= moves(from, to, val as nat));
        }
    }
    jobs
}

/// Carries out one piece of work: lists the moves of a whole job, or the
/// single move.
pub fn carry_out(job: &Job) -> (done: Vec<(usize, usize, usize)>)
    requires
        doable(*job),
    ensures
        done@ == work(*job),
{
    let (from, to, data, flag) = *job;
    if flag {
        HanoiSolver::_all_run(from, to, data)
    } else {
        let mut done: Vec<(usize, usize, usize)> = Vec::new();
        done.push((from, to, data));
        done
    }
}

/// A list with one more piece of work stands for the moves of the list
/// followed by the moves of the piece; the empty list stands for no move.
pub proof fn lemma_joined_push(jobs: Seq<Job>, job: Job)
    ensures
        joined(jobs.push(job)) == joined(jobs) + work(job),
        joined(Seq::<Job>::empty()) == Seq::<(usize, usize, usize)>::empty(),
{
    assert(jobs.push(job).drop_last() =~= jobs);
}

/// The moves of two lists of pieces of work put together are the moves of
/// the one followed by the moves of the other.
pub proof fn lemma_joined_add(a: Seq<Job>, b: Seq<Job>)
    ensures
        joined(a + b) == joined(a) + joined(b),
    decreases b.len(),
{
    if b.len() == 0 {
        assert(a + b =~= a);
    } else {
        lemma_joined_add(a, b.drop_last());
        assert((a + b).drop_last() =~= a + b.drop_last());
        assert((a + b).last() == b.last());
    }
}

impl HanoiSolver {
    /// Solves the puzzle at once: notes all moves of the solution, and
    /// lets peg 0 and peg 2 change places.
    pub fn all_run(&mut self)
        requires
            old(self).wf(),
            old(self)@.n >= 1,
        ensures
            final(self).wf(),
            final(self)@ == old(self)@.solved_at_once(),
    {
        self.history = Self::_all_run(0, 2, self.n);
        self.turn_over();
    }

    /// Solves the puzzle at once, as `all_run` does; the moves are listed
    /// in parallel, in more pieces the larger `par_num` is.
    pub fn all_par_run(&mut self, par_num: u32)
        requires
            old(self).wf(),
            old(self)@.n >= 1,
            par_num != 0,
        ensures
            final(self).wf(),
            final(self)@ == old(self)@.solved_at_once(),
    {
        self.history = Self::_all_par_run(0, 2, self.n, par_num);
        self.turn_over();
    }

    /// Lets peg 0 and peg 2 change places and counts the solution as played.
    fn turn_over(&mut self)
        requires
            old(self).wf(),
        ensures
            final(self).wf(),
            final(self)@ == old(self)@.turned_over(),
    {
        let ghost start = self@;
        assert(start.towers[0].finite() && start.towers[1].finite() && start.towers[2].finite());
        assert(start.towers[0].subset_of(discs(start.n)) && start.towers[1].subset_of(discs(start.n))
            && start.towers[2].subset_of(discs(start.n)));
        let mut tmp: BTreeSet<usize> = BTreeSet::new();
        std::mem::swap(&mut self.towers[2], &mut tmp);
        std::mem::swap(&mut self.towers[0], &mut tmp);
        std::mem::swap(&mut self.towers[2], &mut tmp);
        self.state = self.count();
        proof {
            assert(self@.towers =~= start.turned_over().towers);
        }
    }

    /// The moves that take the `val` smallest discs from peg `from` to peg
    /// `to`, listed in parallel: the job is broken into pieces once for
    /// each binary digit of `par_num`, and the pieces are carried out at the
    /// same time.
    pub fn _all_par_run(from: usize, to: usize, val: usize, par_num: u32) -> (ans: Vec<
        (usize, usize, usize),
    >)
        requires
            from + to <= 3,
            val >= 1,
            par_num != 0,
        ensures
            ans@ == moves(from, to, val as nat),
    {
        let mut par_num = par_num;
        let mut par_rec_num: u32 = 0;
        proof {
            assert(two_to(32) == 0x1_0000_0000) by {
                reveal_with_fuel(two_to, 33);
            }
        }
        while par_num != 0
            invariant
                par_rec_num <= 32,
                par_rec_num == 32 ==> par_num == 0,
                par_num < two_to((32 - par_rec_num) as nat),
            decreases par_num,
        {
            proof {
                lemma_halved(par_num, (32 - par_rec_num) as nat);
            }
            par_rec_num += 1;
            par_num /= 2
        }
        let mut all_run_args: Vec<Job> = Vec::new();
        all_run_args.push((from, to, val, true));
        proof {
            lemma_joined_push(Seq::empty(), (from, to, val, true));
            assert(all_run_args@ =~= Seq::<Job>::empty().push((from, to, val, true)));
        }
        let mut round: u32 = 0;
        while round < par_rec_num
            invariant
                round <= par_rec_num,
                joined(all_run_args@) == moves(from, to, val as nat),
                forall|i: int| 0 <= i < all_run_args@.len() ==> doable(#[trigger] all_run_args@[i]),
            decreases par_rec_num - round,
        {
            let mut new_all_run_args: Vec<Job> = Vec::new();
            let mut k: usize = 0;
            proof {
                lemma_joined_push(Seq::empty(), (from, to, val, true));
                assert(all_run_args@.take(0) =~= Seq::<Job>::empty());
            }
            while k < all_run_args.len()
                invariant
                    k <= all_run_args.len(),
                    joined(new_all_run_args@) == joined(all_run_args@.take(k as int)),
                    forall|i: int| 0 <= i < all_run_args@.len() ==> doable(#[trigger] all_run_args@[i]),
                    forall|i: int|
                        0 <= i < new_all_run_args@.len() ==> doable(#[trigger] new_all_run_args@[i]),
                decreases all_run_args.len() - k,
            {
                let x = all_run_args[k];
                let (from, to, val, flag) = x;
                let ghost before = new_all_run_args@;
                proof {
                    assert(all_run_args@.take(k + 1).drop_last() =~= all_run_args@.take(k as int));
                    assert(all_run_args@.take(k + 1).last() == x);
                    assert(doable(all_run_args@[k as int]));
                }
                if flag {
                    let mut pieces = make_vals(from, to, val);
                    proof {
                        lemma_joined_add(before, pieces@);
                    }
                    new_all_run_args.append(&mut pieces);
                } else {
                    new_all_run_args.push(x);
                    proof {
                        lemma_joined_push(before, x);
                    }
                }
                k += 1;
            }
            assert(all_run_args@.take(all_run_args@.len() as int) =~= all_run_args@);
            all_run_args = new_all_run_args;
            round += 1;
        }
        let mut ans: Vec<(usize, usize, usize)> = Vec::new();
        let mut anss = par_map(&all_run_args, carry_out);
        let mut i: usize = 0;
        proof {
            lemma_joined_push(Seq::empty(), (from, to, val, true));
            assert(all_run_args@.take(0) =~= Seq::<Job>::empty());
        }
        while i < anss.len()
            invariant
                i <= anss.len(),
                anss@.len() == all_run_args@.len(),
                forall|j: int| i <= j < anss@.len() ==> (#[trigger] anss@[j])@ == work(all_run_args@[j]),
                ans@ == joined(all_run_args@.take(i as int)),
            decreases anss.len() - i,
        {
            proof {
                assert(all_run_args@.take(i + 1).drop_last() =~= all_run_args@.take(i as int));
                assert(all_run_args@.take(i + 1).last() == all_run_args@[i as int]);
            }
            ans.append(&mut anss[i]);
            i += 1;
        }
        assert(all_run_args@.take(all_run_args@.len() as int) =~= all_run_args@);
        ans
    }
}

/// Halving a number below two to the `k` gives a number below two to the `k - 1`.
pub proof fn lemma_halved(x: u32, k: nat)
    requires
        x != 0,
        x < two_to(k),
    ensures
        k >= 1,
        x / 2 < two_to((k - 1) as nat),
{
}

impl Pegs {
    /// The state after one move is made and counted; the error where it is refused.
    pub open spec fn made_one(self, m: (usize, usize, usize)) -> Result<Pegs, Seq<char>> {
        match self.refusal(m.0, m.1, m.2) {
            Some(e) => Err(e),
            None => Ok(Pegs { state: self.state + 1, ..self.moved(m.0, m.1, m.2) }),
        }
    }

    /// The state after the moves are made one after the other, each
    /// counted; the error of the first that is refused.
    pub open spec fn made(self, ms: Seq<(usize, usize, usize)>) -> Result<Pegs, Seq<char>>
        decreases ms.len(),
    {
        if ms.len() == 0 {
            Ok(self)
        } else {
            match self.made(ms.drop_last()) {
                Err(e) => Err(e),
                Ok(p) => p.made_one(ms.last()),
            }
        }
    }

    /// The state after the `val` smallest discs went from peg `from` to peg
    /// `to` by the moves of the solution.
    pub open spec fn carried(self, from: usize, to: usize, val: nat) -> Pegs {
        Pegs {
            towers: Seq::new(
                3,
                |i: int|
                    if i == from {
                        self.towers[i].difference(discs(val))
                    } else if i == to {
                        self.towers[i].union(discs(val))
                    } else {
                        self.towers[i]
                    },
            ),
            history: self.history + moves(from, to, val),
            state: self.state + moves_needed(val),
            ..self
        }
    }

    /// The `val` smallest discs stand on peg `from`, and no disc that small
    /// stands elsewhere; nothing but discs stands on the pegs.
    pub open spec fn stacked(self, from: usize, val: nat) -> bool {
        &&& self.towers.len() == 3
        &&& discs(val).subset_of(self.towers[from as int])
        &&& forall|i: int, e: usize|
            0 <= i < 3 && #[trigger] self.towers[i].contains(e) ==> 1 <= e && (e <= val ==> i == from)
    }

    /// Moves made one after the other can be made in two runs.
    pub proof fn lemma_made_add(self, a: Seq<(usize, usize, usize)>, b: Seq<(usize, usize, usize)>)
        ensures
            self.made(a + b) == match self.made(a) {
                Err(e) => Err(e),
                Ok(p) => p.made(b),
            },
        decreases b.len(),
    {
        if b.len() == 0 {
            assert(a + b =~= a);
        } else {
            self.lemma_made_add(a, b.drop_last());
            assert((a + b).drop_last() =~= a + b.drop_last());
            assert((a + b).last() == b.last());
        }
    }

    /// A single move made is the move made.
    pub proof fn lemma_made_single(self, m: (usize, usize, usize))
        ensures
            self.made(seq![m]) == self.made_one(m),
    {
        assert(seq![m].drop_last() =~= Seq::<(usize, usize, usize)>::empty());
        assert(self.made(Seq::<(usize, usize, usize)>::empty()) == Ok::<Pegs, Seq<char>>(self));
    }

    /// The moves of the solution are never refused and do what they are
    /// for: they carry the `val` smallest discs from `from` to `to`.
    pub proof fn lemma_carry(self, from: usize, to: usize, val: nat)
        requires
            pegs(from, to),
            self.stacked(from, val),
            val <= usize::MAX,
        ensures
            self.made(moves(from, to, val)) == Ok::<Pegs, Seq<char>>(self.carried(from, to, val)),
        decreases val,
    {
        let sp = spare(from, to);
        if val == 0 {
            let q = self.carried(from, to, 0);
            assert(discs(0) =~= Set::<usize>::empty());
            assert(q.towers =~= self.towers) by {
                assert forall|i: int| 0 <= i < 3 implies #[trigger] q.towers[i] =~= self.towers[i] by {}
            }
            assert(q.history =~= self.history);
            assert(q == self);
        } else if val == 1 {
            self.lemma_made_single((from, to, 1));
            self.lemma_lift(from, to, 1);
            let q = self.carried(from, to, 1);
            let r = Pegs { state: self.state + 1, ..self.moved(from, to, 1) };
            assert(moves_needed(1) == 1) by {
                reveal_with_fuel(moves_needed, 2);
            }
            assert(q.towers =~= r.towers) by {
                assert(discs(1) =~= set![1usize]);
                assert forall|i: int| 0 <= i < 3 implies #[trigger] q.towers[i] =~= r.towers[i] by {}
            }
            assert(q.history =~= r.history);
            assert(q == r);
        } else {
            let m = (val - 1) as nat;
            let big = val as usize;
            let first = moves(from, sp, m);
            let last = moves(sp, to, m);
            assert(self.stacked(from, m)) by {
                assert(discs(m).subset_of(discs(val)));
            }
            self.lemma_carry(from, sp, m);
            let p1 = self.carried(from, sp, m);
            assert(p1.towers[from as int].contains(big)) by {
                assert(discs(val).contains(big));
            }
            assert(p1.stacked_but(from, to, big)) by {
                assert forall|e: usize| p1.towers[from as int].contains(e) implies big <= e by {
                    assert(self.towers[from as int].contains(e));
                    if e < big {
                        assert(discs(m).contains(e));
                    }
                }
                assert forall|e: usize| p1.towers[to as int].contains(e) implies big <= e by {
                    assert(self.towers[to as int].contains(e));
                }
            }
            p1.lemma_lift_top(from, to, big);
            let p2 = Pegs { state: p1.state + 1, ..p1.moved(from, to, big) };
            assert(p2.stacked(sp, m)) by {
                assert forall|i: int, e: usize| 0 <= i < 3 && #[trigger] p2.towers[i].contains(e) implies 1
                    <= e && (e <= m ==> i == sp) by {
                    if i == from {
                        assert(p1.towers[i].contains(e));
                        assert(self.towers[i].contains(e) && !discs(m).contains(e));
                    } else if i == to {
                        if e != big {
                            assert(p1.towers[i].contains(e));
                            assert(self.towers[i].contains(e));
                        }
                    } else {
                        assert(p1.towers[i].contains(e));
                        if !discs(m).contains(e) {
                            assert(self.towers[i].contains(e));
                        }
                    }
                }
                assert forall|e: usize| discs(m).contains(e) implies p2.towers[sp as int].contains(e) by {
                    assert(p1.towers[sp as int].contains(e));
                }
            }
            p2.lemma_carry(sp, to, m);
            let p3 = p2.carried(sp, to, m);
            self.lemma_made_add(first, seq![(from, to, big)]);
            p1.lemma_made_single((from, to, big));
            self.lemma_made_add(first + seq![(from, to, big)], last);
            let q = self.carried(from, to, val);
            assert(q.towers =~= p3.towers) by {
                assert forall|i: int| 0 <= i < 3 implies #[trigger] q.towers[i] =~= p3.towers[i] by {
                    assert forall|e: usize| q.towers[i].contains(e) == p3.towers[i].contains(e) by {
                        if self.towers[i].contains(e) {
                            assert(1 <= e && (e <= val ==> i == from));
                        }
                    }
                }
            }
            assert(q.history =~= p3.history);
            assert(q == p3);
        }
    }

    /// Disc `val` tops peg `from`, and no disc on peg `to` is smaller.
    pub open spec fn stacked_but(self, from: usize, to: usize, val: usize) -> bool {
        &&& self.towers[from as int].contains(val)
        &&& forall|e: usize| self.towers[from as int].contains(e) ==> val <= e
        &&& forall|e: usize| self.towers[to as int].contains(e) ==> val <= e
    }

    /// The smallest disc of all can go from its peg to any peg.
    pub proof fn lemma_lift(self, from: usize, to: usize, val: usize)
        requires
            pegs(from, to),
            self.stacked(from, val as nat),
            val == 1,
        ensures
            self.refusal(from, to, val) is None,
    {
        assert(discs(1).contains(1usize));
        assert(self.towers[from as int].contains(1));
        assert(self.stacked_but(from, to, val)) by {
            assert forall|e: usize| self.towers[to as int].contains(e) implies val <= e by {}
            assert forall|e: usize| self.towers[from as int].contains(e) implies val <= e by {}
        }
        self.lemma_lift_top(from, to, val);
    }

    /// A disc that tops its peg can go to a peg that holds no smaller disc.
    pub proof fn lemma_lift_top(self, from: usize, to: usize, val: usize)
        requires
            pegs(from, to),
            self.stacked_but(from, to, val),
        ensures
            self.refusal(from, to, val) is None,
    {
        assert(tops(self.towers[from as int], val));
        assert(!(self.towers[from as int] =~= Set::<usize>::empty()));
        assert forall|a: usize, b: usize|
            tops(self.towers[from as int], a) && tops(self.towers[to as int], b) implies !(a > b) by {
            assert(a <= val && val <= b);
        }
    }

    /// The moves that the play makes are the moves of the solution: `k`
    /// moves played from a state that counts `s` moves are the moves at the
    /// places `s` to `s + k` of the list.
    pub proof fn lemma_played_made(self, k: nat)
        requires
            self.n >= 1,
            self.state + k <= moves_needed(self.n),
        ensures
            match self.made(moves(0, 2, self.n).subrange(self.state as int, (self.state + k) as int)) {
                Ok(p) => self.played(k) == (p, Ok::<(), Seq<char>>(())),
                Err(e) => self.played(k).1 == Err::<(), Seq<char>>(e),
            },
        decreases k,
    {
        let all = moves(0, 2, self.n);
        lemma_moves_len(0, 2, self.n);
        let s = self.state as int;
        if k == 0 {
            assert(all.subrange(s, s) =~= Seq::<(usize, usize, usize)>::empty());
        } else {
            let m = all[s];
            lemma_nth_move(0, 2, self.n, self.state);
            assert(all.subrange(s, s + k) =~= seq![m] + all.subrange(s + 1, s + k));
            self.lemma_made_add(seq![m], all.subrange(s + 1, s + k));
            self.lemma_made_single(m);
            match self.step() {
                Err(e) => {},
                Ok(next) => {
                    assert(next.n == self.n && next.state == self.state + 1);
                    next.lemma_played_made((k - 1) as nat);
                },
            }
        }
    }

    /// The play solves the puzzle: from the start, with all discs on peg 0,
    /// no move is refused, and after the moves that the puzzle needs all
    /// discs stand on peg 2.
    pub proof fn lemma_play_solves(n: nat)
        requires
            n <= 31,
        ensures
            Pegs::fresh(n).played(moves_needed(n)) == (
                Pegs::fresh(n).carried(0, 2, n),
                Ok::<(), Seq<char>>(()),
            ),
            Pegs::fresh(n).carried(0, 2, n).towers[0] =~= Set::<usize>::empty(),
            Pegs::fresh(n).carried(0, 2, n).towers[1] =~= Set::<usize>::empty(),
            Pegs::fresh(n).carried(0, 2, n).towers[2] =~= discs(n),
            Pegs::fresh(n).carried(0, 2, n).history == moves(0, 2, n),
    {
        let p = Pegs::fresh(n);
        lemma_moves_len(0, 2, n);
        assert(p.stacked(0, n));
        p.lemma_carry(0, 2, n);
        if n >= 1 {
            p.lemma_played_made(moves_needed(n));
        }
        assert(moves(0, 2, n).subrange(0, moves_needed(n) as int) =~= moves(0, 2, n));
        assert(p.carried(0, 2, n).history =~= moves(0, 2, n));
    }
}

} // verus!
