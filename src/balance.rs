use vstd::prelude::*;

verus! {

/// A pair of grid cells whose readings are compared.
pub type CellPair = (usize, usize);

/// Distance between two readings.
pub open spec fn abs_diff(a: int, b: int) -> int {
    if a >= b {
        a - b
    } else {
        b - a
    }
}

/// Every cell named by a group lies on the grid.
pub open spec fn group_on_grid(group: Seq<CellPair>) -> bool {
    forall|k: int| 0 <= k < group.len() ==> #[trigger] group[k].0 < 16 && group[k].1 < 16
}

/// Every cell named by any group lies on the grid.
pub open spec fn checks_on_grid(checks: Seq<Seq<CellPair>>) -> bool {
    forall|g: int| 0 <= g < checks.len() ==> group_on_grid(#[trigger] checks[g])
}

/// Sum over the group's pairs of the distance between the two readings.
pub open spec fn group_inequality(state: Seq<usize>, group: Seq<CellPair>) -> int
    decreases group.len(),
{
    if group.len() == 0 {
        0
    } else {
        let p = group.last();
        group_inequality(state, group.drop_last()) + abs_diff(
            state[p.0 as int] as int,
            state[p.1 as int] as int,
        )
    }
}

/// The bound a group of `n` pairs is compared against: tighter when driving the
/// readings together, looser when driving them apart.
pub open spec fn group_threshold(n: int, unsolve: bool) -> int {
    if unsolve {
        n * 256 + n * 16
    } else {
        n * 256 - n * 16
    }
}

/// The group's inequality lies below its threshold.
pub open spec fn group_balanced(state: Seq<usize>, group: Seq<CellPair>, unsolve: bool) -> bool {
    group_inequality(state, group) < group_threshold(group.len() as int, unsolve)
}

/// Sum of the inequalities of all groups.
pub open spec fn total_inequality(state: Seq<usize>, checks: Seq<Seq<CellPair>>) -> int
    decreases checks.len(),
{
    if checks.len() == 0 {
        0
    } else {
        total_inequality(state, checks.drop_last()) + group_inequality(state, checks.last())
    }
}

/// Solved: every group lies below its tight threshold.
pub open spec fn all_balanced(state: Seq<usize>, checks: Seq<Seq<CellPair>>) -> bool {
    forall|g: int| 0 <= g < checks.len() ==> group_balanced(state, #[trigger] checks[g], false)
}

/// Unsolved: no group lies below its loose threshold.
pub open spec fn none_balanced(state: Seq<usize>, checks: Seq<Seq<CellPair>>) -> bool {
    forall|g: int| 0 <= g < checks.len() ==> !group_balanced(state, #[trigger] checks[g], true)
}

/// The verdict for the chosen polarity.
pub open spec fn balance_verdict(state: Seq<usize>, checks: Seq<Seq<CellPair>>, unsolve: bool) -> bool {
    if unsolve {
        none_balanced(state, checks)
    } else {
        all_balanced(state, checks)
    }
}

/// The pair (verdict, total inequality) that evaluating a state yields.
pub open spec fn evaluation(state: Seq<usize>, checks: Seq<Seq<CellPair>>, unsolve: bool) -> (bool, int) {
    (balance_verdict(state, checks, unsolve), total_inequality(state, checks))
}

/// Each inequality is a sum of distances, so never negative.
pub proof fn lemma_group_inequality_nonneg(state: Seq<usize>, group: Seq<CellPair>)
    ensures
        group_inequality(state, group) >= 0,
    decreases group.len(),
{
    if group.len() > 0 {
        lemma_group_inequality_nonneg(state, group.drop_last());
    }
}

/// A prefix of a group never has more inequality than the whole group.
pub proof fn lemma_group_prefix_le(state: Seq<usize>, group: Seq<CellPair>, i: int)
    requires
        0 <= i <= group.len(),
    ensures
        group_inequality(state, group.subrange(0, i)) <= group_inequality(state, group),
    decreases group.len(),
{
    if i == group.len() {
        assert(group.subrange(0, i) =~= group);
    } else {
        assert(group.drop_last().subrange(0, i) =~= group.subrange(0, i));
        lemma_group_prefix_le(state, group.drop_last(), i);
    }
}

/// The groups' inequalities are never negative, so neither is their sum.
pub proof fn lemma_total_inequality_nonneg(state: Seq<usize>, checks: Seq<Seq<CellPair>>)
    ensures
        total_inequality(state, checks) >= 0,
    decreases checks.len(),
{
    if checks.len() > 0 {
        lemma_total_inequality_nonneg(state, checks.drop_last());
        lemma_group_inequality_nonneg(state, checks.last());
    }
}

/// A prefix of the groups never has more total inequality than all of them.
pub proof fn lemma_total_prefix_le(state: Seq<usize>, checks: Seq<Seq<CellPair>>, i: int)
    requires
        0 <= i <= checks.len(),
    ensures
        total_inequality(state, checks.subrange(0, i)) <= total_inequality(state, checks),
    decreases checks.len(),
{
    if i == checks.len() {
        assert(checks.subrange(0, i) =~= checks);
    } else {
        assert(checks.drop_last().subrange(0, i) =~= checks.subrange(0, i));
        lemma_total_prefix_le(state, checks.drop_last(), i);
        lemma_group_inequality_nonneg(state, checks.last());
    }
}

/// Inequality of one group and whether it lies below the group's threshold
/// (the loose one when `threshold_dir` is set, the tight one otherwise).
pub fn check_inequality(state: &[usize; 16], check: &[CellPair], threshold_dir: bool) -> (r: (
    bool,
    usize,
))
    requires
        group_on_grid(check@),
        group_inequality(state@, check@) <= usize::MAX,
    ensures
        r.1 == group_inequality(state@, check@),
        r.0 == group_balanced(state@, check@, threshold_dir),
{
    let mut inequality: usize = 0;
    let mut i: usize = 0;
    while i < check.len()
        invariant
            i <= check@.len(),
            group_on_grid(check@),
            group_inequality(state@, check@) <= usize::MAX,
            inequality == group_inequality(state@, check@.subrange(0, i as int)),
        decreases check@.len() - i,
    {
        let (first, last) = check[i];
        assert(check@[i as int].0 < 16 && check@[i as int].1 < 16);
        let a = state[first];
        let b = state[last];
        let d = if a >= b {
            a - b
        } else {
            b - a
        };
        proof {
            let next = check@.subrange(0, i + 1);
            assert(next.drop_last() =~= check@.subrange(0, i as int));
            lemma_group_prefix_le(state@, check@, i + 1);
        }
        inequality = inequality + d;
        i = i + 1;
    }
    assert(check@.subrange(0, check@.len() as int) =~= check@);
    let n = check.len() as u128;
    let threshold: u128 = if threshold_dir {
        n * 256 + n * 16
    } else {
        n * 256 - n * 16
    };
    ((inequality as u128) < threshold, inequality)
}

/// Evaluates a state for solving: solved when every group lies below its
/// tight threshold; also gives the sum of all groups' inequalities.
pub fn check_if_solved(state: &[usize; 16], checks: &[Vec<CellPair>]) -> (r: (bool, usize))
    requires
        checks_on_grid(checks.deep_view()),
        total_inequality(state@, checks.deep_view()) <= usize::MAX,
    ensures
        r.0 == all_balanced(state@, checks.deep_view()),
        r.1 == total_inequality(state@, checks.deep_view()),
{
    evaluate_groups(state, checks, false)
}

/// Evaluates a state for unsolving: unsolved when no group lies below its
/// loose threshold; also gives the sum of all groups' inequalities.
pub fn check_if_unsolved(state: &[usize; 16], checks: &[Vec<CellPair>]) -> (r: (bool, usize))
    requires
        checks_on_grid(checks.deep_view()),
        total_inequality(state@, checks.deep_view()) <= usize::MAX,
    ensures
        r.0 == none_balanced(state@, checks.deep_view()),
        r.1 == total_inequality(state@, checks.deep_view()),
{
    evaluate_groups(state, checks, true)
}

/// Verdict and total inequality of a state for the given polarity.
pub fn evaluate_groups(state: &[usize; 16], checks: &[Vec<CellPair>], unsolve: bool) -> (r: (
    bool,
    usize,
))
    requires
        checks_on_grid(checks.deep_view()),
        total_inequality(state@, checks.deep_view()) <= usize::MAX,
    ensures
        r.0 == balance_verdict(state@, checks.deep_view(), unsolve),
        r.1 == total_inequality(state@, checks.deep_view()),
{
    let ghost cv = checks.deep_view();
    let mut verdict = true;
    let mut total: usize = 0;
    let mut g: usize = 0;
    while g < checks.len()
        invariant
            g <= cv.len(),
            cv == checks.deep_view(),
            checks_on_grid(cv),
            total_inequality(state@, cv) <= usize::MAX,
            total == total_inequality(state@, cv.subrange(0, g as int)),
            verdict == (forall|k: int|
                0 <= k < g ==> #[trigger] group_balanced(state@, cv[k], unsolve) != unsolve),
        decreases cv.len() - g,
    {
        assert(cv[g as int] == checks@[g as int]@);
        assert(group_on_grid(cv[g as int]));
        proof {
            let next = cv.subrange(0, g + 1);
            assert(next.drop_last() =~= cv.subrange(0, g as int));
            lemma_total_prefix_le(state@, cv, g + 1);
            lemma_total_inequality_nonneg(state@, cv.subrange(0, g as int));
        }
        let (balanced, inequality) = check_inequality(state, checks[g].as_slice(), unsolve);
        verdict = verdict && balanced != unsolve;
        total = total + inequality;
        g = g + 1;
    }
    assert(cv.subrange(0, cv.len() as int) =~= cv);
    (verdict, total)
}

/// Each cell against the cell opposite it through the grid's centre.
pub open spec fn opposite_cells() -> Seq<CellPair> {
    seq![(0, 15), (1, 14), (2, 13), (3, 12), (4, 11), (5, 10), (6, 9), (7, 8)]
}

/// The top-left quadrant against the top-right one (rows 0 and 1).
pub open spec fn top_quadrants_across() -> Seq<CellPair> {
    seq![(0, 7), (4, 3), (1, 6), (5, 2)]
}

/// The bottom-left quadrant against the bottom-right one (rows 2 and 3).
pub open spec fn bottom_quadrants_across() -> Seq<CellPair> {
    seq![(8, 15), (12, 11), (9, 14), (13, 10)]
}

/// Column 0 against column 1.
pub open spec fn left_columns_across() -> Seq<CellPair> {
    seq![(0, 13), (4, 9), (8, 5), (12, 1)]
}

/// Column 2 against column 3.
pub open spec fn right_columns_across() -> Seq<CellPair> {
    seq![(2, 15), (6, 11), (10, 7), (14, 3)]
}

/// The two diagonals of the top-left quadrant.
pub open spec fn quadrant_top_left() -> Seq<CellPair> {
    seq![(0, 5), (4, 1)]
}

/// The two diagonals of the bottom-left quadrant.
pub open spec fn quadrant_bottom_left() -> Seq<CellPair> {
    seq![(8, 13), (12, 9)]
}

/// The two diagonals of the top-right quadrant.
pub open spec fn quadrant_top_right() -> Seq<CellPair> {
    seq![(2, 7), (6, 3)]
}

/// The two diagonals of the bottom-right quadrant.
pub open spec fn quadrant_bottom_right() -> Seq<CellPair> {
    seq![(10, 15), (14, 11)]
}

/// The groups that must balance in each of the five modes.
pub open spec fn balance_checks(mode: int) -> Seq<Seq<CellPair>> {
    if mode == 1 {
        seq![opposite_cells()]
    } else if mode == 2 {
        seq![top_quadrants_across(), bottom_quadrants_across()]
    } else if mode == 3 {
        seq![left_columns_across(), top_quadrants_across(), bottom_quadrants_across(), right_columns_across()]
    } else if mode == 4 {
        seq![quadrant_top_left(), quadrant_bottom_left(), quadrant_top_right(), quadrant_bottom_right()]
    } else {
        seq![
            quadrant_top_left(),
            quadrant_bottom_left(),
            opposite_cells(),
            quadrant_top_right(),
            quadrant_bottom_right(),
        ]
    }
}

/// The groups of pairs that must balance in `mode` (1 to 5).
pub fn get_balance_checks(mode: usize) -> (r: Vec<Vec<CellPair>>)
    requires
        1 <= mode <= 5,
    ensures
        r.deep_view() == balance_checks(mode as int),
{
    let r = if mode == 1 {
        vec![vec![(0, 15), (1, 14), (2, 13), (3, 12), (4, 11), (5, 10), (6, 9), (7, 8)]]
    } else if mode == 2 {
        vec![vec![(0, 7), (4, 3), (1, 6), (5, 2)], vec![(8, 15), (12, 11), (9, 14), (13, 10)]]
    } else if mode == 3 {
        vec![
            vec![(0, 13), (4, 9), (8, 5), (12, 1)],
            vec![(0, 7), (4, 3), (1, 6), (5, 2)],
            vec![(8, 15), (12, 11), (9, 14), (13, 10)],
            vec![(2, 15), (6, 11), (10, 7), (14, 3)],
        ]
    } else if mode == 4 {
        vec![
            vec![(0, 5), (4, 1)],
            vec![(8, 13), (12, 9)],
            vec![(2, 7), (6, 3)],
            vec![(10, 15), (14, 11)],
        ]
    } else {
        vec![
            vec![(0, 5), (4, 1)],
            vec![(8, 13), (12, 9)],
            vec![(0, 15), (1, 14), (2, 13), (3, 12), (4, 11), (5, 10), (6, 9), (7, 8)],
            vec![(2, 7), (6, 3)],
            vec![(10, 15), (14, 11)],
        ]
    };
    assert(r.deep_view() =~~= balance_checks(mode as int));
    r
}

/// Number of pairs over all groups.
pub open spec fn pair_count(checks: Seq<Seq<CellPair>>) -> int
    decreases checks.len(),
{
    if checks.len() == 0 {
        0
    } else {
        pair_count(checks.drop_last()) + checks.last().len()
    }
}

/// Each mode names only cells of the grid, and sixteen pairs at most.
pub proof fn lemma_balance_checks_shape(mode: int)
    requires
        1 <= mode <= 5,
    ensures
        checks_on_grid(balance_checks(mode)),
        0 <= pair_count(balance_checks(mode)) <= 16,
{
    reveal_with_fuel(pair_count, 6);
    let c = balance_checks(mode);
    assert forall|g: int| 0 <= g < c.len() implies group_on_grid(#[trigger] c[g]) by {
        let grp = c[g];
        assert forall|k: int| 0 <= k < grp.len() implies #[trigger] grp[k].0 < 16 && grp[k].1
            < 16 by {}
    }
}

/// With every reading at most `bound`, a group's inequality is at most
/// `bound` per pair.
pub proof fn lemma_group_inequality_bound(state: Seq<usize>, group: Seq<CellPair>, bound: int)
    requires
        state.len() == 16,
        group_on_grid(group),
        forall|k: int| 0 <= k < 16 ==> #[trigger] state[k] <= bound,
    ensures
        group_inequality(state, group) <= group.len() * bound,
    decreases group.len(),
{
    if group.len() > 0 {
        let rest = group.drop_last();
        assert(group_on_grid(rest)) by {
            assert forall|k: int| 0 <= k < rest.len() implies #[trigger] rest[k].0 < 16
                && rest[k].1 < 16 by {
                assert(rest[k] == group[k]);
            }
        }
        lemma_group_inequality_bound(state, rest, bound);
        let p = group.last();
        assert(group[group.len() - 1] == p);
        assert(state[p.0 as int] <= bound && state[p.1 as int] <= bound);
        assert((rest.len() + 1) * bound == rest.len() * bound + bound) by (nonlinear_arith);
    }
}

/// With every reading at most `bound`, the total inequality is at most
/// `bound` per pair.
pub proof fn lemma_total_inequality_bound(state: Seq<usize>, checks: Seq<Seq<CellPair>>, bound: int)
    requires
        state.len() == 16,
        checks_on_grid(checks),
        forall|k: int| 0 <= k < 16 ==> #[trigger] state[k] <= bound,
        bound >= 0,
    ensures
        total_inequality(state, checks) <= pair_count(checks) * bound,
    decreases checks.len(),
{
    if checks.len() > 0 {
        let rest = checks.drop_last();
        assert(checks_on_grid(rest)) by {
            assert forall|g: int| 0 <= g < rest.len() implies group_on_grid(#[trigger] rest[g]) by {
                assert(rest[g] == checks[g]);
            }
        }
        assert(group_on_grid(checks[checks.len() - 1]));
        lemma_total_inequality_bound(state, rest, bound);
        lemma_group_inequality_bound(state, checks.last(), bound);
        let a = pair_count(rest);
        let b = checks.last().len() as int;
        assert((a + b) * bound == a * bound + b * bound) by (nonlinear_arith);
    }
}

/// Evaluation is a function of the state, the groups and the polarity alone:
/// equal inputs give the same verdict and the same total inequality.
pub proof fn lemma_evaluation_deterministic(
    state1: Seq<usize>,
    state2: Seq<usize>,
    checks1: Seq<Seq<CellPair>>,
    checks2: Seq<Seq<CellPair>>,
    unsolve: bool,
)
    requires
        state1 == state2,
        checks1 == checks2,
    ensures
        evaluation(state1, checks1, unsolve) == evaluation(state2, checks2, unsolve),
{
}

/// Whether every pair of `group` is at least as far apart in `wider` as in
/// `state`.
pub open spec fn pairs_spread(state: Seq<usize>, wider: Seq<usize>, group: Seq<CellPair>) -> bool {
    forall|k: int|
        0 <= k < group.len() ==> abs_diff(
            state[(#[trigger] group[k]).0 as int] as int,
            state[group[k].1 as int] as int,
        ) <= abs_diff(wider[group[k].0 as int] as int, wider[group[k].1 as int] as int)
}

proof fn lemma_group_inequality_monotone(state: Seq<usize>, wider: Seq<usize>, group: Seq<CellPair>)
    requires
        pairs_spread(state, wider, group),
    ensures
        group_inequality(state, group) <= group_inequality(wider, group),
    decreases group.len(),
{
    if group.len() > 0 {
        let rest = group.drop_last();
        assert(pairs_spread(state, wider, rest)) by {
            assert forall|k: int| 0 <= k < rest.len() implies abs_diff(
                state[(#[trigger] rest[k]).0 as int] as int,
                state[rest[k].1 as int] as int,
            ) <= abs_diff(wider[rest[k].0 as int] as int, wider[rest[k].1 as int] as int) by {
                assert(rest[k] == group[k]);
            }
        }
        assert(group[group.len() - 1] == group.last());
        lemma_group_inequality_monotone(state, wider, rest);
    }
}

/// Spreading the readings of a group's pairs further apart never turns a
/// group that fails its threshold into one that meets it: if the wider state
/// is balanced, so was the original one.
pub proof fn lemma_threshold_monotone(
    state: Seq<usize>,
    wider: Seq<usize>,
    group: Seq<CellPair>,
    unsolve: bool,
)
    requires
        pairs_spread(state, wider, group),
    ensures
        group_inequality(state, group) <= group_inequality(wider, group),
        group_balanced(wider, group, unsolve) ==> group_balanced(state, group, unsolve),
        !group_balanced(state, group, unsolve) ==> !group_balanced(wider, group, unsolve),
{
    lemma_group_inequality_monotone(state, wider, group);
}

/// Spreading the readings of every group's pairs further apart never turns an
/// unsolved state into a solved one, never turns an unsolved verdict back
/// into a balanced one, and never lowers the total inequality.
pub proof fn lemma_checks_monotone(state: Seq<usize>, wider: Seq<usize>, checks: Seq<Seq<CellPair>>)
    requires
        forall|g: int| 0 <= g < checks.len() ==> pairs_spread(state, wider, #[trigger] checks[g]),
    ensures
        all_balanced(wider, checks) ==> all_balanced(state, checks),
        none_balanced(state, checks) ==> none_balanced(wider, checks),
        total_inequality(state, checks) <= total_inequality(wider, checks),
    decreases checks.len(),
{
    assert forall|g: int| 0 <= g < checks.len() implies group_inequality(state, #[trigger] checks[g])
        <= group_inequality(wider, checks[g]) by {
        lemma_group_inequality_monotone(state, wider, checks[g]);
    }
    if checks.len() > 0 {
        let rest = checks.drop_last();
        assert forall|g: int| 0 <= g < rest.len() implies pairs_spread(state, wider, #[trigger] rest[g]) by {
            assert(rest[g] == checks[g]);
        }
        lemma_checks_monotone(state, wider, rest);
        assert(checks[checks.len() - 1] == checks.last());
    }
}

} // verus!
