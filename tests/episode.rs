use uncertainty_solver::balance::get_balance_checks;
use uncertainty_solver::permutation::IndexPermutation;
use uncertainty_solver::solver::{advance_episode, fold_outcome, run_episode, solve};

fn nearly_solved() -> [usize; 16] {
    [990, 20, 200, 300, 400, 500, 600, 700, 705, 605, 505, 405, 305, 205, 985, 10]
}

#[test]
fn episode_stops_at_first_balanced_state() {
    let checks = get_balance_checks(1);
    let draws: Vec<IndexPermutation> = vec![(2, 2), (0, 1), (3, 4)];
    let (state, total) = run_episode(&nearly_solved(), &checks, false, &draws).expect("second draw balances");
    let mut expected = nearly_solved();
    expected.swap(0, 1);
    assert_eq!(state, expected);
    assert_eq!(total, 45);
}

#[test]
fn episode_without_balanced_prefix_is_none() {
    let checks = get_balance_checks(1);
    let draws: Vec<IndexPermutation> = vec![(2, 2), (5, 5), (7, 7)];
    assert_eq!(run_episode(&nearly_solved(), &checks, false, &draws), None);
}

#[test]
fn advance_reports_draws_used() {
    let checks = get_balance_checks(1);
    let mut state = nearly_solved();
    let draws: Vec<IndexPermutation> = vec![(2, 2), (0, 1), (3, 4)];
    assert_eq!(advance_episode(&mut state, &checks, false, &draws), Some((2, 45)));
    let mut state = nearly_solved();
    let draws: Vec<IndexPermutation> = vec![(2, 3), (2, 3)];
    assert_eq!(advance_episode(&mut state, &checks, false, &draws), None);
    assert_eq!(state, nearly_solved());
}

#[test]
fn fold_keeps_first_strictly_best() {
    let mut best = None;
    assert!(!fold_outcome(&mut best, vec![(0, 1), (0, 2), (0, 3)], 500, false));
    assert!(!fold_outcome(&mut best, vec![(1, 2), (1, 3), (1, 4)], 500, false));
    assert_eq!(best, Some((vec![(0, 1), (0, 2), (0, 3)], 500)));
    assert!(!fold_outcome(&mut best, vec![(2, 3), (2, 4), (2, 5)], 600, false));
    assert_eq!(best, Some((vec![(0, 1), (0, 2), (0, 3)], 500)));
    assert!(fold_outcome(&mut best, vec![(4, 5)], 400, false));
    assert_eq!(best, Some((vec![(4, 5)], 400)));
}

#[test]
fn fold_prefers_higher_total_when_unsolving() {
    let mut best = None;
    assert!(fold_outcome(&mut best, vec![(0, 1)], 500, true));
    assert!(fold_outcome(&mut best, vec![(2, 3), (4, 5)], 700, true));
    assert_eq!(best, Some((vec![(2, 3), (4, 5)], 700)));
    assert!(fold_outcome(&mut best, vec![(6, 7)], 650, true));
    assert_eq!(best, Some((vec![(2, 3), (4, 5)], 700)));
}

#[test]
fn solve_succeeds_when_every_arrangement_is_balanced() {
    let state: [usize; 16] = [0, 1, 2, 3, 4, 5, 6, 7, 8, 9, 10, 11, 12, 13, 14, 15];
    let perms = solve(state, 1, false).expect("every arrangement totals at most 120");
    assert!(perms.len() <= 2);
}
