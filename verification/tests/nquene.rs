use puzzles::solver::nquene::NqueneSolver;

#[test]
fn test_par_quene() {
    let anslen = [1, 0, 0, 2, 10, 4, 40, 92, 352, 724];
    for n in 1..=anslen.len() {
        let solver = NqueneSolver::new(n);
        let ans = solver.par_simple();
        assert!(ans.len() == anslen[n - 1]);
    }
}

#[test]
fn test_quene() {
    let anslen = [1, 0, 0, 2, 10, 4, 40, 92, 352, 724];
    for n in 1..=anslen.len() {
        let solver = NqueneSolver::new(n);
        let ans = solver.simple();
        assert!(ans.len() == anslen[n - 1]);
    }
}

#[test]
fn test_dfs() {
    let anslen = [1, 0, 0, 2, 10, 4, 40, 92, 352, 724];
    for n in 1..=anslen.len() {
        let solver = NqueneSolver::new(n);
        let ans = solver.dfs();
        assert_eq!(ans.len(), anslen[n - 1]);
    }
}

#[test]
fn four_queens_in_order() {
    let solver = NqueneSolver::new(4);
    assert_eq!(solver.dfs(), vec![vec![1, 3, 0, 2], vec![2, 0, 3, 1]]);
    assert_eq!(solver.simple(), vec![vec![2, 0, 3, 1], vec![1, 3, 0, 2]]);
    assert_eq!(solver.par_simple(), solver.simple());
    assert_eq!(NqueneSolver::new(0).simple(), Vec::<Vec<usize>>::new());
    assert_eq!(NqueneSolver::new(0).dfs(), vec![Vec::<usize>::new()]);
}

#[test]
fn parallel_search_agrees_with_the_plain_one() {
    for n in 0..8 {
        let solver = NqueneSolver::new(n);
        assert_eq!(solver.par_simple(), solver.simple());
    }
}

#[test]
fn diagonals_and_columns() {
    assert!(NqueneSolver::check_quene(&vec![1, 3, 0, 2]));
    assert!(!NqueneSolver::check_quene(&vec![0, 1]));
    assert!(!NqueneSolver::check_quene(&vec![3, 0, 1]));
    assert!(NqueneSolver::check_quene(&vec![0, 0]));
    assert!(NqueneSolver::check_quene(&vec![]));
    assert!(NqueneSolver::is_free(&vec![1, 3], 0));
    assert!(!NqueneSolver::is_free(&vec![1, 3], 1));
    assert!(!NqueneSolver::is_free(&vec![1, 3], 2));
    assert!(!NqueneSolver::is_free(&vec![1, 3], 3));
    assert!(!NqueneSolver::is_free(&vec![1, 3], 4));
    assert!(NqueneSolver::is_free(&vec![1, 3], 5));
}

#[test]
fn search_keeps_the_placings() {
    let mut solver = NqueneSolver::new(5);
    assert_eq!(solver.has_finished().ok(), Some(false));
    assert!(solver.search().is_ok());
    assert_eq!(solver.has_finished().ok(), Some(true));
    assert_eq!(solver.found_placings().len(), 10);
    let mut solver = NqueneSolver::new(3);
    assert!(solver.search().is_ok());
    assert_eq!(solver.has_finished().ok(), Some(false));
}

#[test]
fn no_two_queens_attack() {
    for n in 0..8 {
        let solver = NqueneSolver::new(n);
        for placing in solver.simple().into_iter().chain(solver.dfs()) {
            assert_eq!(placing.len(), n);
            for i in 0..n {
                for j in (i + 1)..n {
                    assert!(placing[i] != placing[j]);
                    assert!(placing[i].abs_diff(placing[j]) != j - i);
                }
            }
        }
    }
}
