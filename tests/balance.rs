use uncertainty_solver::balance::{
    check_if_solved, check_if_unsolved, check_inequality, evaluate_groups, get_balance_checks,
};

#[test]
fn test_check_inequality() {
    let state = [
        66, 946, 646, 126, 146, 753, 760, 506, 793, 80, 706, 600, 400, 893, 393, 813,
    ];
    let checks = get_balance_checks(3);
    assert!(!check_if_solved(&state, &checks).0);

    let state = [
        910, 860, 100, 740, 780, 90, 400, 250, 830, 760, 890, 130, 620, 870, 990, 530,
    ];
    let checks = get_balance_checks(3);
    assert!(!check_if_solved(&state, &checks).0);

    let state = [
        571, 460, 821, 570, 200, 590, 251, 250, 820, 10, 610, 280, 880, 730, 300, 320,
    ];
    let checks = get_balance_checks(3);
    assert!(!check_if_unsolved(&state, &checks).0);
}

#[test]
fn mode_one_fixture_is_unsolved() {
    let state = [
        66, 946, 646, 126, 146, 753, 760, 506, 793, 80, 706, 600, 400, 893, 393, 813,
    ];
    let checks = get_balance_checks(1);
    assert_eq!(check_if_solved(&state, &checks), (false, 3289));
}

#[test]
fn mode_three_fixtures() {
    let state = [
        910, 860, 100, 740, 780, 90, 400, 250, 830, 760, 890, 130, 620, 870, 990, 530,
    ];
    let checks = get_balance_checks(3);
    assert!(!check_if_solved(&state, &checks).0);

    let state = [
        571, 460, 821, 570, 200, 590, 251, 250, 820, 10, 610, 280, 880, 730, 300, 320,
    ];
    assert!(!check_if_unsolved(&state, &checks).0);
}

#[test]
fn mode_table_shapes() {
    let sizes: Vec<Vec<usize>> = (1..=5)
        .map(|m| get_balance_checks(m).iter().map(|g| g.len()).collect())
        .collect();
    assert_eq!(sizes[0], vec![8]);
    assert_eq!(sizes[1], vec![4, 4]);
    assert_eq!(sizes[2], vec![4, 4, 4, 4]);
    assert_eq!(sizes[3], vec![2, 2, 2, 2]);
    assert_eq!(sizes[4], vec![2, 2, 8, 2, 2]);
    assert_eq!(get_balance_checks(4)[2], vec![(2, 7), (6, 3)]);
}

#[test]
fn group_inequality_and_thresholds() {
    let mut state = [0usize; 16];
    state[1] = 100;
    state[2] = 339;
    // one pair 0..1 at distance 100, one pair 0..2 at distance 339
    let group = vec![(0, 1), (2, 0)];
    // tight threshold 2 * 240 = 480, loose 2 * 272 = 544
    assert_eq!(check_inequality(&state, &group, false), (true, 439));
    assert_eq!(check_inequality(&state, &group, true), (true, 439));
    state[2] = 380;
    assert_eq!(check_inequality(&state, &group, false), (false, 480));
    assert_eq!(check_inequality(&state, &group, true), (true, 480));
    state[2] = 444;
    assert_eq!(check_inequality(&state, &group, true), (false, 544));
}

#[test]
fn unsolved_needs_every_group_apart() {
    let mut state = [0usize; 16];
    for (k, v) in state.iter_mut().enumerate() {
        *v = k * 60;
    }
    let checks = get_balance_checks(2);
    let (verdict, total) = check_if_unsolved(&state, &checks);
    // every pair of mode 2 is far apart except none: compute by hand
    let expected: usize = checks
        .iter()
        .flat_map(|g| g.iter())
        .map(|&(a, b)| if state[a] > state[b] { state[a] - state[b] } else { state[b] - state[a] })
        .sum();
    assert_eq!(total, expected);
    let each_apart = checks.iter().all(|g| {
        let s: usize = g
            .iter()
            .map(|&(a, b)| if state[a] > state[b] { state[a] - state[b] } else { state[b] - state[a] })
            .sum();
        s >= g.len() * 272
    });
    assert_eq!(verdict, each_apart);
}

#[test]
fn evaluation_is_repeatable() {
    let state = [
        571, 460, 821, 570, 200, 590, 251, 250, 820, 10, 610, 280, 880, 730, 300, 320,
    ];
    for mode in 1..=5 {
        let checks = get_balance_checks(mode);
        for unsolve in [false, true] {
            let first = evaluate_groups(&state, &checks, unsolve);
            let second = evaluate_groups(&state, &checks, unsolve);
            assert_eq!(first, second);
        }
    }
}

#[test]
fn spreading_pairs_never_helps_balance() {
    let group = vec![(0, 15), (1, 14)];
    let mut near = [0usize; 16];
    near[0] = 100;
    near[15] = 200;
    near[1] = 300;
    near[14] = 500;
    let mut far = near;
    far[15] = 400;
    far[14] = 700;
    let (near_ok, near_ineq) = check_inequality(&near, &group, false);
    let (far_ok, far_ineq) = check_inequality(&far, &group, false);
    assert_eq!(near_ineq, 300);
    assert_eq!(far_ineq, 700);
    assert!(near_ok);
    assert!(!far_ok);
}
