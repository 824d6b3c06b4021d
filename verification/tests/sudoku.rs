use puzzles::solver::sudoku::SudokuSolver;
use puzzles::solver::Solver;

fn easy() -> Vec<&'static str> {
    vec![
        "902304501",
        "000208000",
        "758109423",
        "604005792",
        "000407000",
        "217900845",
        "106703904",
        "000501000",
        "509602317",
    ]
}

fn easy_answer() -> Vec<&'static str> {
    vec![
        "962374581",
        "341258679",
        "758169423",
        "634815792",
        "895427136",
        "217936845",
        "126783954",
        "473591268",
        "589642317",
    ]
}

fn hard() -> Vec<&'static str> {
    vec![
        "000007000",
        "020008040",
        "103000000",
        "000150000",
        "000300070",
        "000000089",
        "090000000",
        "080002000",
        "000600100",
    ]
}

#[test]
fn easy_test() {
    let mut sudoku = SudokuSolver::new(easy()).unwrap();
    while !sudoku.has_finished().unwrap() {
        sudoku.search().unwrap();
    }

    let ans = SudokuSolver::new(easy_answer()).unwrap();
    assert!(sudoku == ans);
}

#[test]
fn hard_test() {
    let mut sudoku = SudokuSolver::new(hard()).unwrap();
    sudoku.run().unwrap();

    assert!(sudoku.has_finished().unwrap());
}

#[test]
fn easy_needs_no_guess() {
    let mut sudoku = SudokuSolver::new(easy()).unwrap();
    sudoku.propagate();
    assert!(!sudoku.is_vacant());
    assert!(sudoku.has_finished().unwrap());
    let ans = SudokuSolver::new(easy_answer()).unwrap();
    assert!(sudoku == ans);
}

#[test]
fn hard_needs_a_guess() {
    let mut sudoku = SudokuSolver::new(hard()).unwrap();
    sudoku.propagate();
    assert!(sudoku.is_vacant());
    assert!(!sudoku.has_finished().unwrap());
    assert!(!sudoku.num_search());
}
