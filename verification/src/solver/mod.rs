//! The puzzle solvers and what they share: the error they report and the
//! stepwise interface they offer.
use rayon::iter::{IntoParallelRefIterator, ParallelIterator};
use vstd::prelude::*;
use vstd::string::*;

pub mod fifteen_puzzle;
pub mod hanoi;
pub mod nquene;
pub mod pentomino;
pub mod sudoku;

verus! {

/// Why a solver gave up. The view is the text of the message.
#[derive(Debug)]
pub struct PuzzleError {
    error: String,
}

impl View for PuzzleError {
    type V = Seq<char>;

    closed spec fn view(&self) -> Seq<char> {
        self.error@
    }
}

impl PuzzleError {
    /// An error that carries the message `str`.
    pub fn new(str: &str) -> (e: PuzzleError)
        ensures
            e@ == str@,
    {
        PuzzleError { error: String::from_str(str) }
    }

    /// The message of the error.
    pub fn message(&self) -> (s: String)
        ensures
            s@ == self@,
    {
        self.error.clone()
    }
}

/// What a solver returns: a value, or the reason why it gave up.
pub type PuzzleResult<T> = Result<T, PuzzleError>;

/// Applies `f` to every item of the list, in parallel as far as there are
/// threads, and returns the results in the order of the items.
///
/// The body is `rayon`'s `par_iter().map(f).collect()`. Collecting the
/// items of a vector into a `Vec` is documented to keep their order, as the
/// sequential `collect` does; the contract says so, and says of each result
/// what `f` ensures of it.
#[verifier::external_body]
pub(crate) fn par_map<T: Sync, U: Send, F: Fn(&T) -> U + Sync + Send>(items: &Vec<T>, f: F) -> (out:
    Vec<U>)
    requires
        forall|i: int| 0 <= i < items@.len() ==> call_requires(f, (&#[trigger] items@[i],)),
    ensures
        out@.len() == items@.len(),
        forall|i: int| 0 <= i < items@.len() ==> call_ensures(f, (&items@[i],), #[trigger] out@[i]),
{
    items.par_iter().map(f).collect()
}

/// A puzzle that is solved step by step.
pub trait Solver: Sized {
    /// The state is one the solver can work on.
    spec fn sound(&self) -> bool;

    /// What `has_finished` reports of this state: whether the puzzle is
    /// solved, or `None` where the state is found to be inconsistent.
    spec fn finished(&self) -> Option<bool>;

    /// A bound on the number of search steps that an unfinished state still needs.
    spec fn budget(&self) -> nat;

    /// Steps until the puzzle is solved or a step fails.
    fn run(&mut self) -> (r: Result<(), PuzzleError>)
        requires
            old(self).sound(),
        ensures
            final(self).sound(),
            r is Ok ==> final(self).finished() == Some(true),
            old(self).finished() == Some(true) ==> r is Ok && *final(self) == *old(self),
            old(self).finished() is None ==> r is Err && *final(self) == *old(self),
    {
        loop
            invariant
                self.sound(),
                old(self).finished() != Some(false) ==> *self == *old(self),
            decreases self.budget(),
        {
            match self.has_finished() {
                Err(e) => {
                    return Err(e);
                },
                Ok(true) => {
                    return Ok(());
                },
                Ok(false) => {},
            }
            match self.search() {
                Err(e) => {
                    return Err(e);
                },
                Ok(()) => {},
            }
        }
    }

    /// One step of the search. Fails where no choice can lead to a solution.
    fn search(&mut self) -> (r: PuzzleResult<()>)
        requires
            old(self).sound(),
        ensures
            final(self).sound(),
            r is Ok && old(self).finished() == Some(false) ==> final(self).budget() < old(
                self,
            ).budget(),
    ;

    /// Whether the puzzle is solved.
    fn has_finished(&self) -> (r: PuzzleResult<bool>)
        requires
            self.sound(),
        ensures
            match r {
                Ok(done) => self.finished() == Some(done),
                Err(_) => self.finished() is None,
            },
    ;
}

} // verus!
