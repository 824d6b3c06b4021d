use puzzles::solver::sudoku::board::{position, xy_to_block_ind};
use puzzles::solver::sudoku::grid::Line;
use puzzles::solver::sudoku::{FieldElement, SudokuSolver};
use puzzles::solver::Solver;
use std::collections::BTreeSet;

fn blank() -> SudokuSolver {
    SudokuSolver::new(vec!["000000000"; 9]).unwrap()
}

fn candidates(s: &SudokuSolver, x: usize, y: usize) -> Vec<usize> {
    (1..=9).filter(|d| s.field[x][y].offers(*d)).collect()
}

#[test]
fn malformed_rows_are_refused() {
    let mut rows = vec!["000000000"; 9];
    rows[3] = "00000000";
    assert_eq!(SudokuSolver::new(rows).err().unwrap().message(), "invalid data");
    let mut rows = vec!["000000000"; 9];
    rows[3] = "0000000000";
    assert!(SudokuSolver::new(rows).is_err());
    let mut rows = vec!["000000000"; 9];
    rows[8] = "00000a000";
    assert_eq!(SudokuSolver::new(rows).err().unwrap().message(), "invalid data");
    let mut rows = vec!["000000000"; 9];
    rows[0] = "0000 0000";
    assert!(SudokuSolver::new(rows).is_err());
    assert!(SudokuSolver::new(vec!["000000000"; 8]).is_err());
    assert!(SudokuSolver::new(vec!["000000000"; 10]).is_err());
    assert!(SudokuSolver::new(vec!["*0*0*0*0*"; 9]).is_ok());
}

#[test]
fn text_becomes_cells() {
    let s = SudokuSolver::new(vec![
        "5*0000000",
        "000000000",
        "000000000",
        "000000000",
        "000000000",
        "000000000",
        "000000000",
        "000000000",
        "000000009",
    ])
    .unwrap();
    assert_eq!(s.field[0][0], FieldElement::NUM(5));
    assert_eq!(s.field[8][8], FieldElement::NUM(9));
    assert_eq!(s.field[0][1], FieldElement::SUG(BTreeSet::from([1, 2, 3, 4, 5, 6, 7, 8, 9])));
    assert_eq!(s.field[0][2], FieldElement::SUG(BTreeSet::from([1, 2, 3, 4, 5, 6, 7, 8, 9])));
    assert!(s.is_vacant());
}

#[test]
fn duplicate_in_a_row_is_never_solved() {
    let s = SudokuSolver::new(vec![
        "110000000",
        "000000000",
        "000000000",
        "000000000",
        "000000000",
        "000000000",
        "000000000",
        "000000000",
        "000000000",
    ])
    .unwrap();
    let r = s.has_finished();
    assert!(!matches!(r, Ok(true)));
    assert_eq!(r.err().unwrap().message(), "check_row");

    let mut rows = vec![
        "962374581",
        "341258679",
        "758169423",
        "634815792",
        "895427136",
        "217936845",
        "126783954",
        "473591268",
        "589642317",
    ];
    rows[4] = "895427138";
    let s = SudokuSolver::new(rows).unwrap();
    assert_eq!(s.has_finished().err().unwrap().message(), "check_row");
    assert!(s.check_row().is_err());
}

#[test]
fn open_cell_read_before_a_duplicate_is_unfinished() {
    let s = SudokuSolver::new(vec![
        "011000000",
        "000000000",
        "000000000",
        "000000000",
        "000000000",
        "000000000",
        "000000000",
        "000000000",
        "000000000",
    ])
    .unwrap();
    assert_eq!(s.line_check(Line::Row, 0).ok(), Some(false));
    assert_eq!(s.has_finished().ok(), Some(false));
}

#[test]
fn duplicates_in_columns_and_blocks_are_named() {
    let s = SudokuSolver::new(vec!["123456789"; 9]).unwrap();
    assert_eq!(s.check_row().ok(), Some(true));
    assert_eq!(s.check_column().err().unwrap().message(), "check_row");
    assert_eq!(s.has_finished().err().unwrap().message(), "check_row");

    let s = SudokuSolver::new(vec![
        "123456789",
        "234567891",
        "345678912",
        "456789123",
        "567891234",
        "678912345",
        "789123456",
        "891234567",
        "912345678",
    ])
    .unwrap();
    assert_eq!(s.check_row().ok(), Some(true));
    assert_eq!(s.check_column().ok(), Some(true));
    assert_eq!(s.check_block().err().unwrap().message(), "check_block");
    assert_eq!(s.has_finished().err().unwrap().message(), "check_block");
    assert!(!s.is_vacant());
}

#[test]
fn solved_text_is_finished_at_once() {
    let s = SudokuSolver::new(vec![
        "962374581",
        "341258679",
        "758169423",
        "634815792",
        "895427136",
        "217936845",
        "126783954",
        "473591268",
        "589642317",
    ])
    .unwrap();
    assert_eq!(s.has_finished().ok(), Some(true));
    assert_eq!(s.check_row().ok(), Some(true));
    assert_eq!(s.check_column().ok(), Some(true));
    assert_eq!(s.check_block().ok(), Some(true));
    assert!(s == s.clone());
}

#[test]
fn boards_with_open_cells_are_unequal() {
    let a = blank();
    let b = blank();
    assert!(a != b);
    assert!(!(a == a.clone()));
}

#[test]
fn confirm_settles_a_single_candidate() {
    let mut cell = FieldElement::SUG(BTreeSet::from([5]));
    assert_eq!(cell.suggest_confirmed(), 5);
    assert_eq!(cell, FieldElement::NUM(5));
    assert_eq!(cell.suggest_confirmed(), 0);
    assert_eq!(cell, FieldElement::NUM(5));
    let mut cell = FieldElement::SUG(BTreeSet::from([5, 7]));
    assert_eq!(cell.suggest_confirmed(), 0);
    assert_eq!(cell, FieldElement::SUG(BTreeSet::from([5, 7])));
    let mut cell = FieldElement::SUG(BTreeSet::new());
    assert_eq!(cell.suggest_confirmed(), 0);
}

#[test]
fn cell_text() {
    assert_eq!(FieldElement::NUM(7).render(), "7");
    assert_eq!(FieldElement::SUG(BTreeSet::from([7])).render(), "0");
}

#[test]
fn board_text() {
    let s = SudokuSolver::new(vec![
        "902304501",
        "000208000",
        "758109423",
        "604005792",
        "000407000",
        "217900845",
        "106703904",
        "000501000",
        "5096023*7",
    ])
    .unwrap();
    assert_eq!(
        s.render(),
        "902304501\n000208000\n758109423\n604005792\n000407000\n217900845\n106703904\n000501000\n509602307\n"
    );
}

#[test]
fn line_uniqueness_clears_a_row_once() {
    let mut s = SudokuSolver::new(vec![
        "100000000",
        "000000000",
        "000000000",
        "000000000",
        "000000000",
        "000000000",
        "000000000",
        "000000000",
        "000000000",
    ])
    .unwrap();
    assert!(s.row_search(0, 1));
    assert_eq!(candidates(&s, 0, 5), vec![2, 3, 4, 5, 6, 7, 8, 9]);
    assert_eq!(candidates(&s, 1, 0), vec![1, 2, 3, 4, 5, 6, 7, 8, 9]);
    assert!(!s.row_search(0, 1));
    assert!(!s.row_search(1, 1));
    assert!(s.col_search(0, 1));
    assert_eq!(candidates(&s, 5, 0), vec![2, 3, 4, 5, 6, 7, 8, 9]);
    assert!(s.block_search(0, 1));
    assert_eq!(candidates(&s, 1, 1), vec![2, 3, 4, 5, 6, 7, 8, 9]);
    assert!(!s.block_search(0, 1));
    assert!(!s.one_line_search(1));
}

#[test]
fn line_uniqueness_needs_exactly_one_pin() {
    let mut s = SudokuSolver::new(vec![
        "100000001",
        "000000000",
        "000000000",
        "000000000",
        "000000000",
        "000000000",
        "000000000",
        "000000000",
        "000000000",
    ])
    .unwrap();
    assert!(!s.row_search(0, 1));
    assert_eq!(candidates(&s, 0, 5), vec![1, 2, 3, 4, 5, 6, 7, 8, 9]);
}

#[test]
fn pointing_line_clears_the_rest_of_the_row() {
    let mut s = SudokuSolver::new(vec![
        "000000000",
        "234000000",
        "567000000",
        "000000000",
        "000000000",
        "000000000",
        "000000000",
        "000000000",
        "000000000",
    ])
    .unwrap();
    assert!(s.line_confirmed(1));
    assert_eq!(candidates(&s, 0, 0), vec![1, 2, 3, 4, 5, 6, 7, 8, 9]);
    assert_eq!(candidates(&s, 0, 3), vec![2, 3, 4, 5, 6, 7, 8, 9]);
    assert_eq!(candidates(&s, 0, 8), vec![2, 3, 4, 5, 6, 7, 8, 9]);
    assert_eq!(candidates(&s, 1, 3), vec![1, 2, 3, 4, 5, 6, 7, 8, 9]);
    assert_eq!(candidates(&s, 3, 0), vec![1, 2, 3, 4, 5, 6, 7, 8, 9]);
    assert!(!s.line_confirmed(1));
}

#[test]
fn naked_pair_clears_the_other_cells() {
    let mut s = blank();
    for d in 3..=9 {
        assert!(s.strike_at(0, 0, d));
        assert!(s.strike_at(0, 1, d));
    }
    assert!(s.block_pseudo_confirmed(1, 0));
    assert_eq!(candidates(&s, 0, 0), vec![1, 2]);
    assert_eq!(candidates(&s, 0, 1), vec![1, 2]);
    assert_eq!(candidates(&s, 0, 2), vec![3, 4, 5, 6, 7, 8, 9]);
    assert_eq!(candidates(&s, 2, 2), vec![3, 4, 5, 6, 7, 8, 9]);
    assert_eq!(candidates(&s, 0, 3), vec![1, 2, 3, 4, 5, 6, 7, 8, 9]);
    assert!(!s.block_pseudo_confirmed(1, 0));
    assert!(!s.block_pseudo_confirmed(3, 0));
}

#[test]
fn naked_triple_clears_the_other_cells() {
    let mut s = blank();
    for d in 4..=9 {
        s.strike_at(3, 3, d);
        s.strike_at(4, 4, d);
        s.strike_at(5, 5, d);
    }
    assert!(s.pseudo_confirmed(2));
    assert_eq!(candidates(&s, 3, 3), vec![1, 2, 3]);
    assert_eq!(candidates(&s, 3, 4), vec![4, 5, 6, 7, 8, 9]);
    assert_eq!(candidates(&s, 5, 4), vec![4, 5, 6, 7, 8, 9]);
    assert_eq!(candidates(&s, 0, 0), vec![1, 2, 3, 4, 5, 6, 7, 8, 9]);
}

#[test]
fn settled_digit_stops_the_subset_rule() {
    let mut s = SudokuSolver::new(vec![
        "000000000",
        "010000000",
        "000000000",
        "000000000",
        "000000000",
        "000000000",
        "000000000",
        "000000000",
        "000000000",
    ])
    .unwrap();
    for d in 3..=9 {
        s.strike_at(0, 0, d);
        s.strike_at(0, 1, d);
    }
    assert!(!s.block_pseudo_confirmed(1, 0));
    assert_eq!(candidates(&s, 0, 2), vec![1, 2, 3, 4, 5, 6, 7, 8, 9]);
}

#[test]
fn sweep_settles_and_clears_peers() {
    let mut s = blank();
    for d in 1..=8 {
        s.strike_at(4, 4, d);
    }
    assert!(s.confirm_all());
    assert_eq!(s.field[4][4], FieldElement::NUM(9));
    assert_eq!(candidates(&s, 4, 0), vec![1, 2, 3, 4, 5, 6, 7, 8]);
    assert_eq!(candidates(&s, 0, 4), vec![1, 2, 3, 4, 5, 6, 7, 8]);
    assert_eq!(candidates(&s, 3, 3), vec![1, 2, 3, 4, 5, 6, 7, 8]);
    assert_eq!(candidates(&s, 0, 0), vec![1, 2, 3, 4, 5, 6, 7, 8, 9]);
    assert!(!s.confirm_all());
}

#[test]
fn remove_suggest_strikes_row_column_and_block() {
    let mut s = blank();
    s.remove_suggest(1, 7, 4);
    assert_eq!(candidates(&s, 1, 0), vec![1, 2, 3, 5, 6, 7, 8, 9]);
    assert_eq!(candidates(&s, 8, 7), vec![1, 2, 3, 5, 6, 7, 8, 9]);
    assert_eq!(candidates(&s, 0, 6), vec![1, 2, 3, 5, 6, 7, 8, 9]);
    assert_eq!(candidates(&s, 1, 7), vec![1, 2, 3, 5, 6, 7, 8, 9]);
    assert_eq!(candidates(&s, 3, 3), vec![1, 2, 3, 4, 5, 6, 7, 8, 9]);
}

#[test]
fn guesses_come_from_the_first_smallest_cell() {
    let mut s = blank();
    for d in 1..=6 {
        s.strike_at(2, 5, d);
        s.strike_at(7, 1, d);
    }
    s.strike_at(7, 1, 7);
    s.strike_at(8, 8, 1);
    assert_eq!(s.pickup_elem(), vec![(8, 7, 1), (9, 7, 1)]);
    s.strike_at(2, 5, 8);
    assert_eq!(s.pickup_elem(), vec![(7, 2, 5), (9, 2, 5)]);
    let full = SudokuSolver::new(vec!["123456789"; 9]).unwrap();
    assert_eq!(full.pickup_elem(), vec![]);
}

#[test]
fn a_round_reports_whether_a_cell_changed() {
    let mut s = blank();
    assert!(!s.num_search());
    let mut s = SudokuSolver::new(vec![
        "100000000",
        "000000000",
        "000000000",
        "000000000",
        "000000000",
        "000000000",
        "000000000",
        "000000000",
        "000000000",
    ])
    .unwrap();
    assert!(s.num_search());
    assert_eq!(candidates(&s, 0, 8), vec![2, 3, 4, 5, 6, 7, 8, 9]);
    assert_eq!(candidates(&s, 8, 0), vec![2, 3, 4, 5, 6, 7, 8, 9]);
    assert_eq!(candidates(&s, 2, 2), vec![2, 3, 4, 5, 6, 7, 8, 9]);
    assert_eq!(candidates(&s, 3, 3), vec![1, 2, 3, 4, 5, 6, 7, 8, 9]);
    assert!(!s.num_search());
    assert!(!s.num_search());
}

#[test]
fn candidates_never_grow_across_rounds() {
    let mut s = SudokuSolver::new(vec![
        "000007000",
        "020008040",
        "103000000",
        "000150000",
        "000300070",
        "000000089",
        "090000000",
        "080002000",
        "000600100",
    ])
    .unwrap();
    loop {
        let before = s.clone();
        let changed = s.num_search();
        let mut differs = false;
        for x in 0..9 {
            for y in 0..9 {
                match (&before.field[x][y], &s.field[x][y]) {
                    (FieldElement::NUM(a), FieldElement::NUM(b)) => assert_eq!(a, b),
                    (FieldElement::NUM(_), FieldElement::SUG(_)) => panic!("a settled cell was opened"),
                    (FieldElement::SUG(a), FieldElement::NUM(b)) => {
                        assert!(a.contains(b));
                        differs = true;
                    }
                    (FieldElement::SUG(a), FieldElement::SUG(b)) => {
                        assert!(b.is_subset(a));
                        assert!(b.len() <= a.len());
                        differs |= a != b;
                    }
                }
            }
        }
        assert_eq!(changed, differs);
        if !changed {
            break;
        }
    }
}

#[test]
fn cell_without_candidates_is_a_dead_end() {
    let mut s = blank();
    for d in 1..=9 {
        s.strike_at(0, 0, d);
    }
    assert_eq!(s.pickup_elem(), vec![]);
    let before = s.render();
    assert_eq!(s.dfs().err().unwrap().message(), "not found path");
    assert_eq!(s.render(), before);
    assert_eq!(s.run().err().unwrap().message(), "not found path");
}

#[test]
fn dead_end_leaves_the_board_alone() {
    let mut s = SudokuSolver::new(vec![
        "123456700",
        "000000000",
        "000000000",
        "000000000",
        "000000000",
        "000000000",
        "000000000",
        "000000000",
        "000000000",
    ])
    .unwrap();
    s.propagate();
    for d in 1..=9 {
        s.strike_at(1, 8, d);
    }
    s.strike_at(0, 7, 9);
    assert_eq!(candidates(&s, 0, 7), vec![8]);
    let before: Vec<Vec<usize>> = (0..81).map(|n| candidates(&s, n / 9, n % 9)).collect();
    assert!(s.dfs().is_err());
    let after: Vec<Vec<usize>> = (0..81).map(|n| candidates(&s, n / 9, n % 9)).collect();
    assert_eq!(before, after);
}

#[test]
fn search_on_a_full_board_is_the_validator() {
    let mut s = SudokuSolver::new(vec!["123456789"; 9]).unwrap();
    assert_eq!(s.search().err().unwrap().message(), "check_row");
    assert_eq!(s.run().err().unwrap().message(), "check_row");
}

#[test]
fn blank_board_is_solved_by_search() {
    let mut s = blank();
    s.run().unwrap();
    assert_eq!(s.has_finished().ok(), Some(true));
    assert!(!s.is_vacant());
}

#[test]
fn block_index() {
    assert_eq!(xy_to_block_ind(0, 0), 0);
    assert_eq!(xy_to_block_ind(2, 3), 1);
    assert_eq!(xy_to_block_ind(4, 4), 4);
    assert_eq!(xy_to_block_ind(8, 0), 6);
    assert_eq!(xy_to_block_ind(8, 8), 8);
    assert_eq!(position(Line::Block, 5, 7), (5, 7));
    assert_eq!(position(Line::Row, 5, 7), (5, 7));
    assert_eq!(position(Line::Column, 5, 7), (7, 5));
    assert_eq!(position(Line::Block, 7, 2), (6, 5));
}

#[test]
fn cells_that_are_decided() {
    assert_eq!(FieldElement::set_n(4), FieldElement::NUM(4));
    assert!(FieldElement::set_n(4).is_confirm());
    assert!(FieldElement::SUG(BTreeSet::from([2])).is_confirm());
    assert!(!FieldElement::SUG(BTreeSet::from([2, 3])).is_confirm());
    assert!(!FieldElement::SUG(BTreeSet::new()).is_confirm());
    assert!(FieldElement::NUM(4).holds(4));
    assert!(!FieldElement::NUM(4).holds(5));
    assert!(FieldElement::SUG(BTreeSet::from([2, 3])).pins(2) == false);
    assert!(FieldElement::SUG(BTreeSet::from([2])).pins(2));
    assert!(FieldElement::NUM(2).pins(2));
}

#[test]
fn propagation_keeps_the_solution_possible() {
    let rows = vec![
        "000007000",
        "020008040",
        "103000000",
        "000150000",
        "000300070",
        "000000089",
        "090000000",
        "080002000",
        "000600100",
    ];
    let mut solved = SudokuSolver::new(rows.clone()).unwrap();
    solved.run().unwrap();
    let mut s = SudokuSolver::new(rows).unwrap();
    s.propagate();
    for x in 0..9 {
        for y in 0..9 {
            let digit = solved.field[x][y].digit();
            assert!(digit != 0);
            assert!(s.field[x][y].holds(digit) || s.field[x][y].offers(digit));
        }
    }
}

#[test]
fn parallel_line_search_agrees_with_the_plain_one() {
    let rows = vec![
        "000007000",
        "020008040",
        "103000000",
        "000150000",
        "000300070",
        "000000089",
        "090000000",
        "080002000",
        "000600100",
    ];
    let mut plain = SudokuSolver::new(rows.clone()).unwrap();
    let mut par = SudokuSolver::new(rows).unwrap();
    for num in 1..=9 {
        let a = plain.one_line_search(num);
        let b = par.par_one_line_search(num);
        assert_eq!(a, b);
        for n in 0..81 {
            assert_eq!(plain.field[n / 9][n % 9], par.field[n / 9][n % 9]);
        }
    }
    assert!(!par.par_one_line_search(7));
    assert_eq!(candidates(&par, 0, 0), vec![4, 5, 6, 8, 9]);
    assert_eq!(par.line_plan(Line::Row, 0, 7), None);
    let fresh = SudokuSolver::new(vec![
        "000007000",
        "000000000",
        "000000000",
        "000000000",
        "000000000",
        "000000000",
        "000000000",
        "000000000",
        "000000000",
    ])
    .unwrap();
    assert_eq!(fresh.line_plan(Line::Row, 0, 7), Some(5));
    assert_eq!(fresh.line_plan(Line::Column, 5, 7), Some(0));
    assert_eq!(fresh.line_plan(Line::Block, 1, 7), Some(2));
    assert_eq!(fresh.line_plan(Line::Block, 0, 7), None);
}
