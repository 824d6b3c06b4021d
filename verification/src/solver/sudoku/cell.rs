//! The cell of the executable board, and the set operations it needs.
use super::grid::{digit_char, digits, lemma_cell_without, lemma_single, Cell};
use std::collections::BTreeSet;
use vstd::prelude::*;
use vstd::string::*;

verus! {

/// One cell of the board: the digits still possible there (`SUG`), or the
/// digit it has been settled on (`NUM`).
#[derive(PartialEq, Eq, Hash, Debug)]
pub enum FieldElement {
    SUG(BTreeSet<usize>),
    NUM(usize),
}

impl View for FieldElement {
    type V = Cell;

    open spec fn view(&self) -> Cell {
        match self {
            FieldElement::SUG(s) => Cell::Candidates(s@),
            FieldElement::NUM(n) => Cell::Fixed(*n),
        }
    }
}

/// A fresh set holding every digit from 1 to 9.
pub fn all_digits() -> (s: BTreeSet<usize>)
    ensures
        s@ == digits(),
        s@.finite(),
{
    let mut s: BTreeSet<usize> = BTreeSet::new();
    let mut d: usize = 1;
    while d <= 9
        invariant
            1 <= d <= 10,
            s@.finite(),
            s@ == Set::new(|e: usize| 1 <= e < d),
        decreases 10 - d,
    {
        s.insert(d);
        d += 1;
    }
    s
}

/// The member of a set of digits that has exactly one.
pub fn only_member(s: &BTreeSet<usize>) -> (d: usize)
    requires
        s@.finite(),
        s@.subset_of(digits()),
        s@.len() == 1,
    ensures
        s@ == set![d],
        d == s@.choose(),
        1 <= d <= 9,
{
    proof {
        lemma_single(s@);
    }
    let mut d: usize = 1;
    while d < 9
        invariant
            1 <= d <= 9,
            s@.subset_of(digits()),
            s@ == set![s@.choose()],
            d <= s@.choose(),
        decreases 9 - d,
    {
        if s.contains(&d) {
            return d;
        }
        d += 1;
    }
    d
}

/// The text of a digit from 0 to 9.
pub fn digit_text(d: usize) -> (s: &'static str)
    requires
        d <= 9,
    ensures
        s@ == seq![digit_char(d)],
{
    proof {
        reveal_strlit("0");
        reveal_strlit("1");
        reveal_strlit("2");
        reveal_strlit("3");
        reveal_strlit("4");
        reveal_strlit("5");
        reveal_strlit("6");
        reveal_strlit("7");
        reveal_strlit("8");
        reveal_strlit("9");
    }
    let s = if d == 0 {
        "0"
    } else if d == 1 {
        "1"
    } else if d == 2 {
        "2"
    } else if d == 3 {
        "3"
    } else if d == 4 {
        "4"
    } else if d == 5 {
        "5"
    } else if d == 6 {
        "6"
    } else if d == 7 {
        "7"
    } else if d == 8 {
        "8"
    } else {
        "9"
    };
    assert(s@ =~= seq![digit_char(d)]);
    s
}

impl FieldElement {
    /// A cell settled on the digit `x`.
    pub fn set_n(x: usize) -> (cell: FieldElement)
        ensures
            cell@ == Cell::Fixed(x),
    {
        FieldElement::NUM(x)
    }

    /// Whether the cell is decided: settled, or left with a single candidate.
    pub fn is_confirm(&self) -> (r: bool)
        requires
            self@.valid(),
        ensures
            r == (self@ is Fixed || self@.single() is Some),
    {
        match self {
            FieldElement::NUM(_) => true,
            FieldElement::SUG(x) => x.len() == 1,
        }
    }

    /// The cell as text: its digit where it is settled, `0` where it is open.
    pub fn render(&self) -> (s: String)
        requires
            self@.valid(),
        ensures
            s@ == seq![digit_char(self@.shown())],
    {
        String::from_str(digit_text(self.digit()))
    }

    /// Turns an open cell with a single candidate into a settled one and
    /// returns the digit; leaves any other cell as it is and returns 0.
    pub fn suggest_confirmed(&mut self) -> (val: usize)
        requires
            old(self)@.valid(),
        ensures
            final(self)@ == old(self)@.settle(),
            val == match old(self)@.single() {
                Some(d) => d,
                None => 0,
            },
    {
        let val = match self {
            FieldElement::SUG(x) => {
                if x.len() == 1 {
                    only_member(x)
                } else {
                    0
                }
            },
            FieldElement::NUM(_) => 0,
        };
        if val != 0 {
            *self = FieldElement::NUM(val);
        }
        val
    }

    /// Strikes `d` from the candidates of an open cell. Returns whether the
    /// cell held it.
    pub fn strike(&mut self, d: usize) -> (hit: bool)
        ensures
            final(self)@ == old(self)@.without(set![d]),
            hit == old(self)@.offers(d),
    {
        match self {
            FieldElement::SUG(set) => {
                let hit = set.remove(&d);
                assert(set@ =~= old(self)@->Candidates_0.difference(set![d]));
                hit
            },
            FieldElement::NUM(_) => false,
        }
    }

    /// Strikes every digit of `ds` from the candidates of an open cell.
    /// Returns whether the cell held one of them.
    pub fn strike_all(&mut self, ds: &BTreeSet<usize>) -> (hit: bool)
        requires
            old(self)@.valid(),
        ensures
            final(self)@ == old(self)@.without(ds@),
            hit == old(self)@.meets(ds@),
            final(self)@.valid(),
    {
        let ghost start = self@;
        let mut hit = false;
        let mut d: usize = 1;
        while d <= 9
            invariant
                1 <= d <= 10,
                start.valid(),
                start == old(self)@,
                self@ == start.without(Set::new(|e: usize| ds@.contains(e) && e < d)),
                hit == start.meets(Set::new(|e: usize| ds@.contains(e) && e < d)),
            decreases 10 - d,
        {
            let ghost low = Set::new(|e: usize| ds@.contains(e) && e < d);
            let ghost next = Set::new(|e: usize| ds@.contains(e) && e < d + 1);
            if ds.contains(&d) {
                let struck = self.strike(d);
                hit = hit || struck;
                proof {
                    match start {
                        Cell::Fixed(_) => {},
                        Cell::Candidates(s) => {
                            assert(s.difference(low).difference(set![d]) =~= s.difference(next));
                            if struck {
                                assert(s.contains(d) && next.contains(d));
                            }
                            if start.meets(low) {
                                let e = choose|e: usize| s.contains(e) && low.contains(e);
                                assert(s.contains(e) && next.contains(e));
                            }
                            if start.meets(next) {
                                let e = choose|e: usize| s.contains(e) && next.contains(e);
                                if e != d {
                                    assert(s.contains(e) && low.contains(e));
                                }
                            }
                        },
                    }
                }
            } else {
                assert(next =~= low);
            }
            d += 1;
        }
        proof {
            let all = Set::new(|e: usize| ds@.contains(e) && e < 10);
            lemma_cell_without(start, ds@);
            match start {
                Cell::Fixed(_) => {},
                Cell::Candidates(s) => {
                    assert(s.difference(all) =~= s.difference(ds@));
                    if start.meets(all) {
                        let e = choose|e: usize| s.contains(e) && all.contains(e);
                        assert(s.contains(e) && ds@.contains(e));
                    }
                    if start.meets(ds@) {
                        let e = choose|e: usize| s.contains(e) && ds@.contains(e);
                        assert(s.contains(e) && all.contains(e));
                    }
                },
            }
        }
        hit
    }

    /// Adds the candidates of the cell to `pool`.
    pub fn pour_into(&self, pool: &mut BTreeSet<usize>)
        requires
            self@.valid(),
            old(pool)@.finite(),
        ensures
            final(pool)@ == old(pool)@.union(self@.candidates()),
            final(pool)@.finite(),
    {
        let mut d: usize = 1;
        while d <= 9
            invariant
                1 <= d <= 10,
                self@.valid(),
                pool@.finite(),
                pool@ == old(pool)@.union(Set::new(|e: usize| self@.offers(e) && e < d)),
            decreases 10 - d,
        {
            if self.offers(d) {
                pool.insert(d);
            }
            assert(pool@ =~= old(pool)@.union(Set::new(|e: usize| self@.offers(e) && e < d + 1)));
            d += 1;
        }
        assert(pool@ =~= old(pool)@.union(self@.candidates()));
    }

    /// Whether the cell is open with `d` among its candidates.
    pub fn offers(&self, d: usize) -> (r: bool)
        ensures
            r == self@.offers(d),
    {
        match self {
            FieldElement::SUG(set) => set.contains(&d),
            FieldElement::NUM(_) => false,
        }
    }

    /// Whether the cell can only be `d`.
    pub fn pins(&self, d: usize) -> (r: bool)
        requires
            self@.valid(),
        ensures
            r == self@.pins(d),
    {
        match self {
            FieldElement::SUG(set) => {
                if set.len() == 1 && set.contains(&d) {
                    proof {
                        lemma_single(set@);
                    }
                    true
                } else {
                    proof {
                        if set@ == set![d] {
                            assert(set@.len() == 1);
                            assert(set@.contains(d));
                        }
                    }
                    false
                }
            },
            FieldElement::NUM(n) => *n == d,
        }
    }

    /// Whether the cell is settled as `d`.
    pub fn holds(&self, d: usize) -> (r: bool)
        ensures
            r == (self@ == Cell::Fixed(d)),
    {
        match self {
            FieldElement::SUG(_) => false,
            FieldElement::NUM(n) => *n == d,
        }
    }

    /// The settled digit, or 0 for an open cell.
    pub fn digit(&self) -> (d: usize)
        ensures
            d == self@.shown(),
    {
        match self {
            FieldElement::SUG(_) => 0,
            FieldElement::NUM(n) => *n,
        }
    }
}

impl Clone for FieldElement {
    fn clone(&self) -> (res: Self)
        ensures
            res@ == self@,
    {
        match self {
            FieldElement::SUG(s) => FieldElement::SUG(s.clone()),
            FieldElement::NUM(n) => FieldElement::NUM(*n),
        }
    }
}

} // verus!
