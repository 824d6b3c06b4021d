use puzzles::solver::fifteen_puzzle::FifteenPuzzleSolver;
use puzzles::solver::Solver;

#[test]
fn test() {
    let solver = FifteenPuzzleSolver::new();
    println!("{:?}", solver);
}

#[test]
fn fifteen_puzzle_is_finished() {
    let mut solver = FifteenPuzzleSolver::new();
    assert!(solver.has_finished().unwrap());
    assert!(solver.search().is_ok());
    assert!(solver.run().is_ok());
}
