//! The n queens puzzle: all ways to stand n queens on an n by n board so
//! that no two share a row, a column or a diagonal. A placing is a list
//! that gives, for each row, the column of its queen.
use super::{par_map, PuzzleError, PuzzleResult};
use vstd::prelude::*;

verus! {

/// How far apart two columns are.
pub open spec fn apart(a: usize, b: usize) -> int {
    if a <= b {
        b - a
    } else {
        a - b
    }
}

/// No two queens of the placing stand on one diagonal.
pub open spec fn safe(q: Seq<usize>) -> bool {
    forall|i: int, j: int| 0 <= i < j < q.len() ==> j - i != apart(#[trigger] q[i], #[trigger] q[j])
}

/// The list with the entries at `x` and `y` exchanged.
pub open spec fn swapped(s: Seq<usize>, x: int, y: int) -> Seq<usize> {
    s.update(x, s[y]).update(y, s[x])
}

/// The columns 0 to `n - 1` in order.
pub open spec fn columns(n: nat) -> Seq<usize> {
    Seq::new(n, |i: int| i as usize)
}

/// The safe placings found among the orderings of the first `n` entries of
/// `nums`, in the order in which the search meets them: the list as it
/// stands when `n` is 1, then what each exchange of the last of the `n`
/// entries with one of them leads to.
pub open spec fn found(nums: Seq<usize>, n: int) -> Seq<Seq<usize>>
    decreases n, n + 1,
{
    if n <= 0 {
        Seq::empty()
    } else {
        let head = if n == 1 && safe(nums) {
            seq![nums]
        } else {
            Seq::empty()
        };
        head + exchanges(nums, n, n)
    }
}

/// What the exchanges of entry `n - 1` with the entries before `k` lead to.
pub open spec fn exchanges(nums: Seq<usize>, n: int, k: int) -> Seq<Seq<usize>>
    decreases n, k,
{
    if k <= 0 || n <= 0 || k > n {
        Seq::empty()
    } else {
        exchanges(nums, n, k - 1) + found(swapped(nums, n - 1, k - 1), n - 1)
    }
}

/// A queen in column `i` of the next row is attacked by none of the queens
/// placed so far: none stands in that column or on a diagonal through it.
pub open spec fn free(now: Seq<usize>, i: usize) -> bool {
    forall|idx: int|
        0 <= idx < now.len() ==> (#[trigger] now[idx]) != i && apart(now[idx], i) != now.len() - idx
}

/// The full placings that extend `now` on a board of `n` rows, in
/// ascending order of the columns chosen.
pub open spec fn extensions(now: Seq<usize>, n: nat) -> Seq<Seq<usize>>
    decreases n - now.len(), n + 1,
{
    if now.len() >= n {
        if now.len() == n {
            seq![now]
        } else {
            Seq::empty()
        }
    } else {
        choices(now, n, n as int)
    }
}

/// The full placings that extend `now` with a queen in a column before `k`.
pub open spec fn choices(now: Seq<usize>, n: nat, k: int) -> Seq<Seq<usize>>
    decreases n - now.len(), k,
{
    if k <= 0 || now.len() >= n || k > n {
        Seq::empty()
    } else if free(now, (k - 1) as usize) {
        choices(now, n, k - 1) + extensions(now.push((k - 1) as usize), n)
    } else {
        choices(now, n, k - 1)
    }
}

/// The lists of a vector of vectors.
pub open spec fn rows(v: Seq<Vec<usize>>) -> Seq<Seq<usize>> {
    Seq::new(v.len(), |i: int| v[i]@)
}

/// A solver for the n queens puzzle.
pub struct NqueneSolver {
    /// The size of the board.
    n: usize,
    /// The placings found by the last search.
    anss: Vec<Vec<usize>>,
}

/// Copies a list.
fn copy_of(v: &Vec<usize>) -> (r: Vec<usize>)
    ensures
        r@ == v@,
{
    let mut r: Vec<usize> = Vec::new();
    let mut i: usize = 0;
    while i < v.len()
        invariant
            i <= v.len(),
            r@ == v@.take(i as int),
        decreases v.len() - i,
    {
        r.push(v[i]);
        assert(r@ =~= v@.take(i + 1));
        i += 1;
    }
    assert(r@ =~= v@);
    r
}

/// Exchanges two entries of a list.
fn exchange(nums: &mut Vec<usize>, x: usize, y: usize)
    requires
        x < old(nums).len(),
        y < old(nums).len(),
    ensures
        final(nums)@ == swapped(old(nums)@, x as int, y as int),
{
    let a = nums[x];
    let b = nums[y];
    nums[x] = b;
    nums[y] = a;
}

/// Appends the lists of `more` to `ans`.
fn append_all(ans: &mut Vec<Vec<usize>>, more: &Vec<Vec<usize>>)
    ensures
        rows(final(ans)@) == rows(old(ans)@) + rows(more@),
{
    let mut i: usize = 0;
    while i < more.len()
        invariant
            i <= more.len(),
            rows(ans@) == rows(old(ans)@) + rows(more@).take(i as int),
        decreases more.len() - i,
    {
        let ghost prev = ans@;
        ans.push(copy_of(&more[i]));
        assert(rows(ans@) =~= rows(prev).push(more@[i as int]@));
        assert(rows(more@).take(i + 1) =~= rows(more@).take(i as int).push(more@[i as int]@));
        assert(rows(ans@) =~= rows(old(ans)@) + rows(more@).take(i + 1));
        i += 1;
    }
    assert(rows(more@).take(more@.len() as int) =~= rows(more@));
}

impl NqueneSolver {
    /// The size of the board.
    pub closed spec fn size(&self) -> nat {
        self.n as nat
    }

    /// The placings found by the last search.
    pub closed spec fn answers(&self) -> Seq<Seq<usize>> {
        rows(self.anss@)
    }

    /// A solver for a board of `n` rows, with no placing found yet.
    pub fn new(n: usize) -> (s: Self)
        ensures
            s.size() == n,
            s.answers() == Seq::<Seq<usize>>::empty(),
    {
        let s = NqueneSolver { n, anss: Vec::new() };
        assert(rows(s.anss@) =~= Seq::<Seq<usize>>::empty());
        s
    }

    /// The columns 0 to `n - 1` as a list.
    fn start(n: usize) -> (nums: Vec<usize>)
        ensures
            nums@ == columns(n as nat),
    {
        let mut nums: Vec<usize> = Vec::new();
        let mut i: usize = 0;
        while i < n
            invariant
                i <= n,
                nums@ == columns(i as nat),
            decreases n - i,
        {
            nums.push(i);
            assert(nums@ =~= columns((i + 1) as nat));
            i += 1;
        }
        nums
    }

    /// All safe placings, found by trying every ordering of the columns.
    pub fn simple(&self) -> (ans: Vec<Vec<usize>>)
        ensures
            rows(ans@) == found(columns(self.size()), self.size() as int),
    {
        let mut nums = Self::start(self.n);
        let mut ans: Vec<Vec<usize>> = Vec::new();
        assert(rows(ans@) =~= Seq::<Seq<usize>>::empty());
        Self::apply_permutation(&mut nums, self.n, &mut ans);
        assert(rows(ans@) =~= found(columns(self.size()), self.size() as int));
        ans
    }

    /// Whether no two queens of the placing stand on one diagonal.
    pub fn check_quene(quenes: &Vec<usize>) -> (ok: bool)
        ensures
            ok == safe(quenes@),
    {
        let mut i: usize = 0;
        while i < quenes.len()
            invariant
                i <= quenes.len(),
                forall|a: int, b: int|
                    0 <= a < i && a < b < quenes.len() ==> b - a != apart(
                        #[trigger] quenes@[a],
                        #[trigger] quenes@[b],
                    ),
            decreases quenes.len() - i,
        {
            let qval = quenes[i];
            let mut j: usize = i + 1;
            while j < quenes.len()
                invariant
                    i < j <= quenes.len(),
                    qval == quenes@[i as int],
                    forall|b: int|
                        i < b < j ==> b - i != apart(quenes@[i as int], #[trigger] quenes@[b]),
                decreases quenes.len() - j,
            {
                let diff = j - i;
                let other = quenes[j];
                let gap = if qval <= other {
                    other - qval
                } else {
                    qval - other
                };
                if diff == gap {
                    assert(j - i == apart(quenes@[i as int], quenes@[j as int]));
                    return false;
                }
                j += 1;
            }
            i += 1;
        }
        true
    }

    /// Adds to `ans` the safe placings found among the orderings of the
    /// first `n` entries of `nums`; `nums` is left as it was.
    fn apply_permutation(nums: &mut Vec<usize>, n: usize, ans: &mut Vec<Vec<usize>>)
        requires
            n <= old(nums).len(),
        ensures
            final(nums)@ == old(nums)@,
            rows(final(ans)@) == rows(old(ans)@) + found(old(nums)@, n as int),
        decreases n,
    {
        if n == 1 {
            if Self::check_quene(nums) {
                ans.push(copy_of(nums));
                assert(rows(ans@) =~= rows(old(ans)@) + seq![nums@]);
            }
        }
        let ghost head = if n == 1 && safe(nums@) {
            seq![nums@]
        } else {
            Seq::empty()
        };
        assert(rows(ans@) =~= rows(old(ans)@) + head + exchanges(nums@, n as int, 0));
        let mut i: usize = 0;
        while i < n
            invariant
                i <= n,
                n <= nums.len(),
                nums@ == old(nums)@,
                head == if n == 1 && safe(nums@) {
                    seq![nums@]
                } else {
                    Seq::<Seq<usize>>::empty()
                },
                rows(ans@) == rows(old(ans)@) + head + exchanges(nums@, n as int, i as int),
            decreases n - i,
        {
            let ghost before = rows(ans@);
            exchange(nums, n - 1, i);
            Self::apply_permutation(nums, n - 1, ans);
            exchange(nums, n - 1, i);
            proof {
                let s = old(nums)@;
                assert(swapped(swapped(s, n - 1, i as int), n - 1, i as int) =~= s);
                assert(rows(ans@) =~= rows(old(ans)@) + head + exchanges(s, n as int, i + 1));
            }
            i += 1;
        }
        assert(rows(ans@) =~= rows(old(ans)@) + found(old(nums)@, n as int));
    }

    /// All safe placings, as `simple` finds them; the exchanges of the last
    /// column are followed up in parallel.
    pub fn par_simple(&self) -> (ans: Vec<Vec<usize>>)
        ensures
            rows(ans@) == found(columns(self.size()), self.size() as int),
    {
        let nums = Self::start(self.n);
        let mut ans: Vec<Vec<usize>> = Vec::new();
        assert(rows(ans@) =~= Seq::<Seq<usize>>::empty());
        Self::par_apply_permutation(&nums, self.n, &mut ans);
        assert(rows(ans@) =~= found(columns(self.size()), self.size() as int));
        ans
    }

    /// The safe placings that the exchange of entry `n - 1` of `nums` with
    /// entry `i` leads to.
    pub fn branch(nums: &Vec<usize>, n: usize, i: usize) -> (tmpans: Vec<Vec<usize>>)
        requires
            i < n <= nums.len(),
        ensures
            rows(tmpans@) == found(swapped(nums@, n - 1, i as int), n - 1),
    {
        let mut nums = copy_of(nums);
        exchange(&mut nums, n - 1, i);
        let mut tmpans: Vec<Vec<usize>> = Vec::new();
        assert(rows(tmpans@) =~= Seq::<Seq<usize>>::empty());
        Self::apply_permutation(&mut nums, n - 1, &mut tmpans);
        assert(rows(tmpans@) =~= found(nums@, n - 1));
        tmpans
    }

    /// Adds to `ans` the safe placings found among the orderings of the
    /// first `n` entries of `nums`, the first level of exchanges in parallel.
    fn par_apply_permutation(nums: &Vec<usize>, n: usize, ans: &mut Vec<Vec<usize>>)
        requires
            n <= nums.len(),
        ensures
            rows(final(ans)@) == rows(old(ans)@) + found(nums@, n as int),
    {
        if n == 1 {
            if Self::check_quene(nums) {
                ans.push(copy_of(nums));
                assert(rows(ans@) =~= rows(old(ans)@) + seq![nums@]);
            }
        }
        let ghost head = if n == 1 && safe(nums@) {
            seq![nums@]
        } else {
            Seq::empty()
        };
        assert(rows(ans@) =~= rows(old(ans)@) + head + exchanges(nums@, n as int, 0));
        let places = Self::start(n);
        let follow = |i: &usize| -> (tmpans: Vec<Vec<usize>>)
            requires
                *i < n,
            ensures
                rows(tmpans@) == found(swapped(nums@, n - 1, *i as int), n - 1),
            { Self::branch(nums, n, *i) };
        let out = par_map(&places, follow);
        let mut i: usize = 0;
        while i < n
            invariant
                i <= n,
                n <= nums.len(),
                out@.len() == n,
                forall|k: int|
                    0 <= k < n ==> rows((#[trigger] out@[k])@) == found(swapped(nums@, n - 1, k), n - 1),
                rows(ans@) == rows(old(ans)@) + head + exchanges(nums@, n as int, i as int),
            decreases n - i,
        {
            append_all(ans, &out[i]);
            assert(rows(ans@) =~= rows(old(ans)@) + head + exchanges(nums@, n as int, i + 1));
            i += 1;
        }
        assert(rows(ans@) =~= rows(old(ans)@) + found(nums@, n as int));
    }

    /// Whether a queen in column `i` of the next row is attacked by none of
    /// the queens placed so far.
    pub fn is_free(now: &Vec<usize>, i: usize) -> (ok: bool)
        ensures
            ok == free(now@, i),
    {
        let mut idx: usize = 0;
        while idx < now.len()
            invariant
                idx <= now.len(),
                forall|k: int|
                    0 <= k < idx ==> (#[trigger] now@[k]) != i && apart(now@[k], i) != now@.len() - k,
            decreases now.len() - idx,
        {
            let v = now[idx];
            let diff = now.len() - idx;
            let gap = if v <= i {
                i - v
            } else {
                v - i
            };
            if v == i || gap == diff {
                assert(!(now@[idx as int] != i && apart(now@[idx as int], i) != now@.len() - idx));
                return false;
            }
            idx += 1;
        }
        true
    }

    /// All safe placings, found row by row: each row takes, in ascending
    /// order, the columns that no queen above attacks.
    pub fn dfs(&self) -> (ans: Vec<Vec<usize>>)
        ensures
            rows(ans@) == extensions(Seq::empty(), self.size()),
    {
        let mut ans: Vec<Vec<usize>> = Vec::new();
        let mut now: Vec<usize> = Vec::new();
        assert(rows(ans@) =~= Seq::<Seq<usize>>::empty());
        self._dfs(&mut now, &mut ans);
        assert(rows(ans@) =~= extensions(Seq::empty(), self.size()));
        ans
    }

    /// Adds to `ans` the full placings that extend `now`; `now` is left as
    /// it was.
    fn _dfs(&self, now: &mut Vec<usize>, ans: &mut Vec<Vec<usize>>)
        requires
            old(now).len() <= self.size(),
        ensures
            final(now)@ == old(now)@,
            rows(final(ans)@) == rows(old(ans)@) + extensions(old(now)@, self.size()),
        decreases self.size() - old(now).len(),
    {
        if now.len() == self.n {
            ans.push(copy_of(now));
            assert(rows(ans@) =~= rows(old(ans)@) + seq![now@]);
            return ;
        }
        assert(rows(ans@) =~= rows(old(ans)@) + choices(now@, self.size(), 0));
        let mut i: usize = 0;
        while i < self.n
            invariant
                i <= self.n,
                now@ == old(now)@,
                now.len() < self.size(),
                rows(ans@) == rows(old(ans)@) + choices(now@, self.size(), i as int),
            decreases self.n - i,
        {
            if Self::is_free(now, i) {
                let ghost base = now@;
                now.push(i);
                self._dfs(now, ans);
                now.pop();
                assert(now@ =~= base);
                assert(rows(ans@) =~= rows(old(ans)@) + choices(base, self.size(), i + 1));
            }
            i += 1;
        }
    }

    /// Whether the last search found a placing.
    pub fn has_finished(&self) -> (r: PuzzleResult<bool>)
        ensures
            r == Ok::<bool, PuzzleError>(self.answers().len() != 0),
    {
        Ok(self.anss.len() != 0)
    }

    /// Searches all safe placings and keeps them.
    pub fn search(&mut self) -> (r: PuzzleResult<()>)
        ensures
            r is Ok,
            final(self).size() == old(self).size(),
            final(self).answers() == found(columns(old(self).size()), old(self).size() as int),
    {
        self.anss = self.simple();
        Ok(())
    }

    /// The placings found by the last search.
    pub fn found_placings(&self) -> (v: Vec<Vec<usize>>)
        ensures
            rows(v@) == self.answers(),
    {
        let mut v: Vec<Vec<usize>> = Vec::new();
        assert(rows(v@) =~= Seq::<Seq<usize>>::empty());
        let mut i: usize = 0;
        while i < self.anss.len()
            invariant
                i <= self.anss.len(),
                rows(v@) == rows(self.anss@).take(i as int),
            decreases self.anss.len() - i,
        {
            let ghost prev = v@;
            v.push(copy_of(&self.anss[i]));
            assert(rows(v@) =~= rows(prev).push(self.anss@[i as int]@));
            assert(rows(v@) =~= rows(self.anss@).take(i + 1));
            i += 1;
        }
        assert(rows(self.anss@).take(self.anss@.len() as int) =~= rows(self.anss@));
        v
    }
}

/// No two queens of the placing attack each other: no two stand in one
/// column or on one diagonal.
pub open spec fn peaceful(q: Seq<usize>) -> bool {
    forall|i: int, j: int|
        0 <= i < j < q.len() ==> (#[trigger] q[i]) != (#[trigger] q[j]) && j - i != apart(q[i], q[j])
}

/// Every placing that the search over orderings finds is safe and has as
/// many rows as the list it started from; where no column occurs twice in
/// that list, none occurs twice in the placing, so that no two queens
/// attack each other.
pub proof fn lemma_found_peaceful(nums: Seq<usize>, n: int, k: int)
    requires
        0 <= n <= nums.len(),
        0 <= k < found(nums, n).len(),
    ensures
        safe(found(nums, n)[k]),
        found(nums, n)[k].len() == nums.len(),
        nums.no_duplicates() ==> found(nums, n)[k].no_duplicates() && peaceful(found(nums, n)[k]),
    decreases n, n + 1,
{
    let head = if n == 1 && safe(nums) {
        seq![nums]
    } else {
        Seq::empty()
    };
    if k < head.len() {
        assert(found(nums, n)[k] == nums);
    } else {
        lemma_exchanges_peaceful(nums, n, n, k - head.len());
        assert(found(nums, n)[k] == exchanges(nums, n, n)[k - head.len()]);
    }
}

/// The same for what the exchanges lead to.
pub proof fn lemma_exchanges_peaceful(nums: Seq<usize>, n: int, m: int, k: int)
    requires
        0 <= m <= n <= nums.len(),
        0 <= k < exchanges(nums, n, m).len(),
    ensures
        safe(exchanges(nums, n, m)[k]),
        exchanges(nums, n, m)[k].len() == nums.len(),
        nums.no_duplicates() ==> exchanges(nums, n, m)[k].no_duplicates() && peaceful(
            exchanges(nums, n, m)[k],
        ),
    decreases n, m,
{
    if m > 0 {
        let before = exchanges(nums, n, m - 1);
        let turned = swapped(nums, n - 1, m - 1);
        if k < before.len() {
            lemma_exchanges_peaceful(nums, n, m - 1, k);
            assert(exchanges(nums, n, m)[k] == before[k]);
        } else {
            lemma_found_peaceful(turned, n - 1, k - before.len());
            assert(exchanges(nums, n, m)[k] == found(turned, n - 1)[k - before.len()]);
            if nums.no_duplicates() {
                assert(turned.no_duplicates()) by {
                    assert forall|i: int, j: int| 0 <= i < turned.len() && 0 <= j < turned.len() && i
                        != j implies turned[i] != turned[j] by {
                        let a = if i == n - 1 {
                            m - 1
                        } else if i == m - 1 {
                            n - 1
                        } else {
                            i
                        };
                        let b = if j == n - 1 {
                            m - 1
                        } else if j == m - 1 {
                            n - 1
                        } else {
                            j
                        };
                        assert(turned[i] == nums[a] && turned[j] == nums[b]);
                    }
                }
            }
        }
    }
}

/// Every placing that the search by rows finds from a peaceful start is a
/// placing of `n` queens of which no two attack each other.
pub proof fn lemma_extensions_peaceful(now: Seq<usize>, n: nat, k: int)
    requires
        peaceful(now),
        0 <= k < extensions(now, n).len(),
    ensures
        extensions(now, n)[k].len() == n,
        peaceful(extensions(now, n)[k]),
    decreases n - now.len(), n + 1,
{
    if now.len() < n {
        lemma_choices_peaceful(now, n, n as int, k);
    }
}

/// The same for the placings that go on with a column before `m`.
pub proof fn lemma_choices_peaceful(now: Seq<usize>, n: nat, m: int, k: int)
    requires
        peaceful(now),
        0 <= m <= n,
        0 <= k < choices(now, n, m).len(),
    ensures
        choices(now, n, m)[k].len() == n,
        peaceful(choices(now, n, m)[k]),
    decreases n - now.len(), m,
{
    if m > 0 && now.len() < n {
        let before = choices(now, n, m - 1);
        if k < before.len() {
            lemma_choices_peaceful(now, n, m - 1, k);
        } else {
            let col = (m - 1) as usize;
            let next = now.push(col);
            assert(free(now, col));
            assert(peaceful(next)) by {
                assert forall|i: int, j: int| 0 <= i < j < next.len() implies (#[trigger] next[i]) != (
                #[trigger] next[j]) && j - i != apart(next[i], next[j]) by {
                    if j == now.len() {
                        assert(now[i] != col && apart(now[i], col) != now.len() - i);
                    } else {
                        assert(now[i] != now[j]);
                    }
                }
            }
            lemma_extensions_peaceful(next, n, k - before.len());
            assert(choices(now, n, m)[k] == extensions(next, n)[k - before.len()]);
        }
    }
}

} // verus!
