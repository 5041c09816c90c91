use uncertainty_solver::balance::{check_if_solved, check_if_unsolved, get_balance_checks};
use uncertainty_solver::grid::{convert_index_to_coords, ensure_no_duplicates, has_duplicate};
use uncertainty_solver::layout::render_permutations;
use uncertainty_solver::permutation::{decompose, swap_cells, IndexPermutation};
use uncertainty_solver::solver::{is_improvement, solve, SearchError, ITERATIONS};

fn replay(state: &[usize], perms: &[IndexPermutation]) -> Vec<usize> {
    let mut s = state.to_vec();
    for &(a, b) in perms {
        s.swap(a, b);
    }
    s
}

#[test]
fn identity_decomposition_is_empty() {
    let s: Vec<usize> = (0..16).map(|k| k * 37 % 1000).collect();
    assert!(decompose(&s, &s).is_empty());
}

#[test]
fn single_swap_decomposition() {
    assert_eq!(decompose(&[0, 1, 2, 3], &[1, 0, 2, 3]), vec![(0, 1)]);
}

#[test]
fn three_cycle_decomposition() {
    let perms = decompose(&[0, 1, 2, 3], &[1, 2, 0, 3]);
    assert_eq!(perms.len(), 2);
    assert_eq!(perms, vec![(0, 2), (0, 1)]);
    assert_eq!(replay(&[0, 1, 2, 3], &perms), vec![1, 2, 0, 3]);
}

#[test]
fn reversal_decomposition_replays() {
    let original: Vec<usize> = (0..16).map(|k| 10 * k + 3).collect();
    let target: Vec<usize> = original.iter().rev().cloned().collect();
    let perms = decompose(&original, &target);
    assert_eq!(perms.len(), 8);
    assert_eq!(replay(&original, &perms), target);
}

#[test]
fn full_cycle_takes_fifteen_swaps() {
    let original: Vec<usize> = (0..16).collect();
    let target: Vec<usize> = (0..16).map(|k| (k + 1) % 16).collect();
    let perms = decompose(&original, &target);
    assert_eq!(perms.len(), 15);
    assert!(perms.iter().all(|&(a, b)| a < b && b < 16));
    assert_eq!(replay(&original, &perms), target);
}

#[test]
fn solve_reaches_a_balanced_state() {
    let state = [
        66, 946, 646, 126, 146, 753, 760, 506, 793, 80, 706, 600, 400, 893, 393, 813,
    ];
    let perms = solve(state, 1, false).expect("mode 1 is reachable");
    assert!(perms.len() < 16);
    let end = replay(&state, &perms);
    let mut arr = [0usize; 16];
    arr.copy_from_slice(&end);
    assert!(check_if_solved(&arr, &get_balance_checks(1)).0);
}

#[test]
fn solve_reaches_an_unbalanced_state() {
    let state = [
        571, 460, 821, 570, 200, 590, 251, 250, 820, 10, 610, 280, 880, 730, 300, 320,
    ];
    let perms = solve(state, 4, true).expect("mode 4 can be unbalanced");
    let end = replay(&state, &perms);
    let mut arr = [0usize; 16];
    arr.copy_from_slice(&end);
    assert!(check_if_unsolved(&arr, &get_balance_checks(4)).0);
}

#[test]
fn search_error_reports_iterations() {
    let e = SearchError::SearchExhausted { iterations: ITERATIONS };
    assert_eq!(e.iterations(), 100000000);
}

#[test]
fn improvement_follows_polarity() {
    assert!(is_improvement(false, 10, 20));
    assert!(!is_improvement(false, 20, 20));
    assert!(is_improvement(true, 30, 20));
    assert!(!is_improvement(true, 10, 20));
}

#[test]
fn coords_are_row_and_column() {
    assert_eq!(convert_index_to_coords(0), (0, 0));
    assert_eq!(convert_index_to_coords(6), (1, 2));
    assert_eq!(convert_index_to_coords(15), (3, 3));
}

#[test]
fn duplicates_are_raised_apart() {
    let mut arr = [5usize, 5, 5, 7, 1, 2, 3, 4, 8, 9, 10, 11, 12, 13, 14, 15];
    ensure_no_duplicates(&mut arr);
    assert_eq!(arr, [6, 16, 5, 7, 1, 2, 3, 4, 8, 9, 10, 11, 12, 13, 14, 15]);
    for i in 0..16 {
        assert!(!has_duplicate(&arr, i));
    }
}

#[test]
fn distinct_readings_are_kept() {
    let mut arr = [
        66, 946, 646, 126, 146, 753, 760, 506, 793, 80, 706, 600, 400, 893, 393, 813,
    ];
    let before = arr;
    ensure_no_duplicates(&mut arr);
    assert_eq!(arr, before);
}

#[test]
fn rendering_of_two_swaps() {
    let blocks = render_permutations(&[(0, 1), (15, 4)], 6);
    let text: Vec<Vec<String>> = blocks
        .iter()
        .map(|b| b.iter().map(|l| l.iter().collect()).collect())
        .collect();
    assert_eq!(text.len(), 1);
    assert_eq!(text[0][0], "A~~~   ~B~~   ");
    assert_eq!(text[0][1], "B~~~ \u{2192} ~~~~   ");
    assert_eq!(text[0][2], "~~~~   ~~~~   ");
    assert_eq!(text[0][3], "~~~~   ~~~A   ");
}

#[test]
fn rendering_splits_into_blocks() {
    let perms: Vec<IndexPermutation> = vec![(0, 1); 7];
    let blocks = render_permutations(&perms, 3);
    assert_eq!(blocks.len(), 3);
    assert_eq!(blocks[2][1].iter().collect::<String>(), "B~~~   ");
    assert_eq!(blocks[0][1].iter().collect::<String>(), "B~~~ \u{2192} B~~~ \u{2192} B~~~ \u{2192} ");
}

#[test]
fn swap_cells_exchanges_two_readings() {
    let mut state: [usize; 16] = [0, 10, 20, 30, 40, 50, 60, 70, 80, 90, 100, 110, 120, 130, 140, 150];
    swap_cells(&mut state, 2, 13);
    assert_eq!(state[2], 130);
    assert_eq!(state[13], 20);
    swap_cells(&mut state, 5, 5);
    assert_eq!(state[5], 50);
}
