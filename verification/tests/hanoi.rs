use puzzles::solver::hanoi::{carry_out, make_vals, HanoiSolver};
use std::collections::BTreeSet;

#[test]
fn test_next_val() {
    let n = 10;
    let solver = HanoiSolver::new(n);
    let ans = [
        1, 2, 1, 3, 1, 2, 1, 4, 1, 2, 1, 3, 1, 2, 1, 5, 1, 2, 1, 3, 1, 2, 1, 4, 1, 2, 1, 3, 1,
        2, 1,
    ];
    for i in 1..ans.len() {
        let (_, _, val) = solver._find_next_from_to_val((0, 2, n), i as u32);
        assert!(ans[i] == val, "i: {}, ans: {}, val: {}", i, ans[i], val);
    }
}

#[test]
fn test_next_from_to() {
    let mut solver = HanoiSolver::new(2);
    let ans = [(0, 1, 1), (0, 2, 2), (1, 2, 1)];
    for a in ans {
        println!("{:?}", solver.next_from_to());
        let (from, to, val) = solver.next_from_to();
        assert!(
            (from, to, val) == a,
            "from: {}, to: {}, val: {}, a: {:?} {:?}",
            from,
            to,
            val,
            a,
            solver
        );
        solver.state += 1;
    }
    println!();
    let mut solver = HanoiSolver::new(3);
    let ans = [
        (0, 2, 1),
        (0, 1, 2),
        (2, 1, 1),
        (0, 2, 3),
        (1, 0, 1),
        (1, 2, 2),
        (0, 2, 1),
    ];
    for a in ans {
        println!("{:?}", solver.next_from_to());
        let (from, to, val) = solver.next_from_to();
        solver.move_val(from, to, val).unwrap();
        assert!(
            (from, to, val) == a,
            "from: {}, to: {}, val: {}, a: {:?} {:?}",
            from,
            to,
            val,
            a,
            solver
        );
        solver.state += 1;
    }
}

#[test]
fn test_count() {
    let solver = HanoiSolver::new(10);
    for i in 0..solver.cache_count.len() {
        assert!(HanoiSolver::_opt_count(i) == solver.cache_count[i]);
        assert!(HanoiSolver::_opt_count(i) == HanoiSolver::_rec_count(i));
        assert!(HanoiSolver::_opt_count(i) == HanoiSolver::_for_count(i));
        assert!(HanoiSolver::_opt_count(i) == HanoiSolver::_tail_rec_count(i));
    }
    assert!(HanoiSolver::_opt_count(solver.n) == solver.count());
}

#[test]
fn test_par_run_all() {
    let n = 10;
    let mut solver = HanoiSolver::new(n);
    solver.all_run();
    let mut solver2 = HanoiSolver::new(n);
    solver2.all_par_run(4);
    assert_eq!(solver.history, solver2.history);
}

#[test]
fn test_run_all() {
    let n = 10;
    let mut solver = HanoiSolver::new(n);
    solver.all_run();
    let mut solver2 = HanoiSolver::new(n);
    solver2.run().unwrap();
    assert!(solver.history == solver2.history);
}

#[test]
fn counts_are_powers_of_two_less_one() {
    assert_eq!(HanoiSolver::_opt_count(0), 0);
    assert_eq!(HanoiSolver::_opt_count(1), 1);
    assert_eq!(HanoiSolver::_opt_count(5), 31);
    assert_eq!(HanoiSolver::_opt_count(31), 2147483647);
    assert_eq!(HanoiSolver::_rec_count(32), 4294967295);
    assert_eq!(HanoiSolver::_for_count(32), 4294967295);
    assert_eq!(HanoiSolver::_tail_rec_count(32), 4294967295);
    assert_eq!(HanoiSolver::__tail_rec_count(3, 1), 15);
    assert_eq!(HanoiSolver::new(6).count(), 63);
}

#[test]
fn three_discs_move_by_move() {
    let all = vec![
        (0, 2, 1),
        (0, 1, 2),
        (2, 1, 1),
        (0, 2, 3),
        (1, 0, 1),
        (1, 2, 2),
        (0, 2, 1),
    ];
    assert_eq!(HanoiSolver::_all_run(0, 2, 3), all);
    for par in 1..10 {
        assert_eq!(HanoiSolver::_all_par_run(0, 2, 3, par), all);
    }
    assert_eq!(HanoiSolver::_all_par_run(0, 2, 3, u32::MAX), all);
    assert_eq!(HanoiSolver::_all_run(1, 0, 1), vec![(1, 0, 1)]);
    let solver = HanoiSolver::new(3);
    for (pos, mv) in all.iter().enumerate() {
        assert_eq!(solver._find_next_from_to_val((0, 2, 3), pos as u32), *mv);
    }
    assert_eq!(
        make_vals(0, 2, 3),
        vec![(0, 1, 2, true), (0, 2, 3, false), (1, 2, 2, true)]
    );
    assert_eq!(make_vals(0, 2, 1), vec![(0, 2, 1, false)]);
    assert_eq!(carry_out(&(0, 1, 2, true)), vec![(0, 2, 1), (0, 1, 2), (2, 1, 1)]);
    assert_eq!(carry_out(&(0, 1, 2, false)), vec![(0, 1, 2)]);
}

#[test]
fn playing_solves_the_puzzle() {
    let mut solver = HanoiSolver::new(6);
    assert_eq!(solver.has_finished().ok(), Some(false));
    solver.run().unwrap();
    assert_eq!(solver.has_finished().ok(), Some(true));
    assert_eq!(solver.state, 63);
    assert_eq!(solver.history.len(), 63);
    assert_eq!(solver.towers[0], BTreeSet::new());
    assert_eq!(solver.towers[1], BTreeSet::new());
    assert_eq!(solver.towers[2], BTreeSet::from([1, 2, 3, 4, 5, 6]));
    solver.run().unwrap();
    assert_eq!(solver.history.len(), 63);
    solver.init();
    assert_eq!(solver.state, 0);
    assert_eq!(solver.history, vec![]);
    assert_eq!(solver.towers[0], BTreeSet::from([1, 2, 3, 4, 5, 6]));
    assert_eq!(solver.towers[2], BTreeSet::new());
    solver.opt_behaiver(5).unwrap();
    assert_eq!(solver.state, 5);
    assert_eq!(solver.history, HanoiSolver::_all_run(0, 2, 6)[..5].to_vec());
    solver.opt_behaiver(1000).unwrap();
    assert_eq!(solver.state, 63);
    assert_eq!(solver.has_finished().ok(), Some(true));
}

#[test]
fn solving_at_once_turns_the_pegs_over() {
    let mut solver = HanoiSolver::new(4);
    solver.all_run();
    assert_eq!(solver.towers[0], BTreeSet::new());
    assert_eq!(solver.towers[2], BTreeSet::from([1, 2, 3, 4]));
    assert_eq!(solver.state, 15);
    assert_eq!(solver.has_finished().ok(), Some(true));
    assert_eq!(solver.history.len(), 15);
}

#[test]
fn refused_moves() {
    let mut solver = HanoiSolver::new(3);
    assert_eq!(solver.move_val(3, 4, 1).err().unwrap().message(), "invalid index");
    assert_eq!(solver.move_val(1, 2, 1).err().unwrap().message(), "tower of from is empty.");
    assert_eq!(solver.move_val(0, 2, 2).err().unwrap().message(), "invalid value");
    assert_eq!(solver.history, vec![]);
    assert_eq!(solver.move_val(0, 2, 1).ok(), Some(1));
    assert_eq!(solver.move_val(0, 2, 2).err().unwrap().message(), "cannot stack the tower");
    assert_eq!(solver.move_val(0, 1, 2).ok(), Some(2));
    assert_eq!(solver.history, vec![(0, 2, 1), (0, 1, 2)]);
    assert_eq!(solver.top(0), Some(3));
    assert_eq!(solver.top(1), Some(2));
    assert_eq!(solver.top(2), Some(1));
    assert_eq!(solver.towers[0], BTreeSet::from([3]));
}

#[test]
fn taking_back_a_move() {
    let mut solver = HanoiSolver::new(3);
    solver.search().unwrap();
    solver.search().unwrap();
    assert_eq!(solver.state, 2);
    solver.redo();
    assert_eq!(solver.state, 1);
    assert_eq!(solver.towers[0], BTreeSet::from([2, 3]));
    assert_eq!(solver.towers[1], BTreeSet::new());
    assert_eq!(solver.history, vec![(0, 2, 1), (1, 0, 2)]);
    let mut fresh = HanoiSolver::new(3);
    fresh.redo();
    assert_eq!(fresh.state, 0);
    assert_eq!(fresh.history, vec![]);
}

#[test]
fn puzzle_of_no_disc() {
    let mut solver = HanoiSolver::new(0);
    assert_eq!(solver.count(), 0);
    assert_eq!(solver.has_finished().ok(), Some(true));
    assert_eq!(solver.next_from_to(), (0, 2, 0));
    assert_eq!(solver.search().err().unwrap().message(), "tower of from is empty.");
    assert!(solver.run().is_ok());
    assert!(solver.opt_behaiver(7).is_ok());
    assert_eq!(solver.state, 0);
    assert_eq!(solver.history, vec![]);
}
