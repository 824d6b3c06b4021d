//! The fifteen puzzle. The solver holds no state yet: it reports every
//! puzzle as finished.
use super::{PuzzleError, PuzzleResult, Solver};
use vstd::prelude::*;

verus! {

/// A solver for the fifteen puzzle.
#[derive(Debug)]
pub struct FifteenPuzzleSolver {}

impl FifteenPuzzleSolver {
    /// A solver with nothing left to do.
    pub fn new() -> (s: Self)
        ensures
            s.finished() == Some(true),
    {
        FifteenPuzzleSolver {  }
    }
}

impl Solver for FifteenPuzzleSolver {
    /// Every state will do.
    open spec fn sound(&self) -> bool {
        true
    }

    /// Every state counts as solved.
    open spec fn finished(&self) -> Option<bool> {
        Some(true)
    }

    /// No step is needed.
    open spec fn budget(&self) -> nat {
        0
    }

    /// Leaves the solver as it is and succeeds.
    fn search(&mut self) -> (r: PuzzleResult<()>)
        ensures
            r is Ok,
            *final(self) == *old(self),
    {
        Ok(())
    }

    /// Always `Ok(true)`.
    fn has_finished(&self) -> (r: PuzzleResult<bool>)
        ensures
            r == Ok::<bool, PuzzleError>(true),
    {
        Ok(true)
    }
}

} // verus!
