use vstd::prelude::*;

use crate::balance::{
    balance_checks, balance_verdict, check_if_solved, check_if_unsolved, checks_on_grid,
    get_balance_checks, lemma_balance_checks_shape, lemma_total_inequality_bound, pair_count,
    total_inequality, CellPair,
};
use crate::permutation::{
    apply_swaps, decompose, lemma_apply_swaps_concat, lemma_apply_swaps_keeps_values, scan_step,
    swap_cells, swaps_within, IndexPermutation,
};

verus! {

/// Random swaps tried per episode before the search gives up.
pub const ITERATIONS: usize = 100000000;

/// Independent restarts of the search from the original state.
pub const EPISODES: usize = 5000;

/// Why a search failed.
#[derive(Debug, Clone, Copy, PartialEq, Eq)]
pub enum SearchError {
    /// An episode tried this many random swaps without reaching a state with
    /// the wanted verdict.
    SearchExhausted { iterations: usize },
}

impl SearchError {
    /// The number of random swaps the failing episode tried.
    pub fn iterations(&self) -> (r: usize)
        ensures
            r == match *self {
                SearchError::SearchExhausted { iterations } => iterations,
            },
    {
        match *self {
            SearchError::SearchExhausted { iterations } => iterations,
        }
    }
}

/// rand's thread-local generator, carried through as an opaque value.
#[verifier::external_type_specification]
#[verifier::external_body]
pub struct ExThreadRng(rand::rngs::ThreadRng);

/// Relies on rand::thread_rng: a handle on the calling thread's generator,
/// seeded by the system; nothing is promised of what it will draw.
pub assume_specification[ rand::thread_rng ]() -> rand::rngs::ThreadRng;

/// Relies on rand::Rng::gen_range: a value drawn from the half-open range
/// 0..16, which is not empty, so the call does not panic.
#[verifier::external_body]
fn random_cell(rng: &mut rand::rngs::ThreadRng) -> (r: usize)
    ensures
        r < 16,
{
    rand::Rng::gen_range(rng, 0..16usize)
}

/// Largest reading the search accepts: sixteen distances of such readings
/// still fit in a `usize`.
pub open spec fn reading_fits(v: usize) -> bool {
    v <= usize::MAX / 16
}

/// The state after the first `j` draws has the wanted verdict.
pub open spec fn reached(
    s: Seq<usize>,
    checks: Seq<Seq<CellPair>>,
    unsolve: bool,
    draws: Seq<IndexPermutation>,
    j: int,
) -> bool {
    balance_verdict(apply_swaps(s, draws.subrange(0, j)), checks, unsolve)
}

/// No prefix of one draw or more reaches the wanted verdict.
pub open spec fn never_reached(
    s: Seq<usize>,
    checks: Seq<Seq<CellPair>>,
    unsolve: bool,
    draws: Seq<IndexPermutation>,
) -> bool {
    forall|j: int| 1 <= j <= draws.len() ==> !#[trigger] reached(s, checks, unsolve, draws, j)
}

/// The first `j` draws reach the wanted verdict, and no shorter prefix of one
/// draw or more does.
pub open spec fn first_reached(
    s: Seq<usize>,
    checks: Seq<Seq<CellPair>>,
    unsolve: bool,
    draws: Seq<IndexPermutation>,
    j: int,
) -> bool {
    &&& 1 <= j <= draws.len()
    &&& reached(s, checks, unsolve, draws, j)
    &&& forall|i: int| 1 <= i < j ==> !#[trigger] reached(s, checks, unsolve, draws, i)
}

/// The groups of a mode: on the grid, with sixteen pairs at most.
pub open spec fn checks_shaped(checks: Seq<Seq<CellPair>>) -> bool {
    checks_on_grid(checks) && 0 <= pair_count(checks) <= 16
}

/// Continues an episode from `state` with `draws`: each draw swaps two cells,
/// and the episode stops at the first state with the wanted verdict; it
/// returns how many draws were used and that state's total inequality. With
/// no such state, every draw is applied and `None` comes back.
pub fn advance_episode(
    state: &mut [usize; 16],
    checks: &[Vec<CellPair>],
    unsolve: bool,
    draws: &[IndexPermutation],
) -> (r: Option<(usize, usize)>)
    requires
        checks_shaped(checks.deep_view()),
        swaps_within(draws@, 16),
        forall|k: int| 0 <= k < 16 ==> reading_fits(#[trigger] old(state)@[k]),
    ensures
        forall|k: int| 0 <= k < 16 ==> reading_fits(#[trigger] final(state)@[k]),
        match r {
            None => {
                &&& never_reached(old(state)@, checks.deep_view(), unsolve, draws@)
                &&& final(state)@ == apply_swaps(old(state)@, draws@)
            },
            Some((j, t)) => {
                &&& first_reached(old(state)@, checks.deep_view(), unsolve, draws@, j as int)
                &&& final(state)@ == apply_swaps(old(state)@, draws@.subrange(0, j as int))
                &&& t == total_inequality(final(state)@, checks.deep_view())
            },
        },
{
    let ghost cv = checks.deep_view();
    let ghost start = state@;
    let mut i: usize = 0;
    let mut result: Option<(usize, usize)> = None;
    while i < draws.len() && result.is_none()
        invariant
            cv == checks.deep_view(),
            checks_shaped(cv),
            swaps_within(draws@, 16),
            i <= draws@.len(),
            state@ == apply_swaps(start, draws@.subrange(0, i as int)),
            forall|k: int| 0 <= k < 16 ==> reading_fits(#[trigger] state@[k]),
            match result {
                None => forall|j: int| 1 <= j <= i ==> !#[trigger] reached(start, cv, unsolve, draws@, j),
                Some((used, t)) => {
                    &&& used == i
                    &&& first_reached(start, cv, unsolve, draws@, i as int)
                    &&& t == total_inequality(state@, cv)
                },
            },
        decreases draws@.len() - i,
    {
        let (a, b) = draws[i];
        assert(draws@[i as int].0 < 16 && draws@[i as int].1 < 16);
        let ghost before = state@;
        swap_cells(state, a, b);
        proof {
            assert(draws@.subrange(0, i + 1).drop_last() =~= draws@.subrange(0, i as int));
            assert forall|k: int| 0 <= k < 16 implies reading_fits(#[trigger] state@[k]) by {
                assert(state@[k] == before[k] || state@[k] == before[a as int] || state@[k]
                    == before[b as int]);
            }
            lemma_total_inequality_bound(state@, cv, (usize::MAX / 16) as int);
            assert((usize::MAX / 16) as int * pair_count(cv) <= usize::MAX) by (nonlinear_arith)
                requires
                    0 <= pair_count(cv) <= 16,
            ;
            assert(pair_count(cv) * (usize::MAX / 16) as int == (usize::MAX / 16) as int
                * pair_count(cv)) by (nonlinear_arith);
        }
        let done = if !unsolve {
            check_if_solved(state, checks)
        } else {
            check_if_unsolved(state, checks)
        };
        i = i + 1;
        if done.0 {
            result = Some((i, done.1));
        }
    }
    if result.is_none() {
        assert(draws@.subrange(0, draws@.len() as int) =~= draws@);
    }
    result
}

/// One episode of the search from `screen_state` with the given draws: the
/// state and total inequality after the shortest prefix of the draws (one
/// draw or more) that reaches the wanted verdict, or `None` when no prefix
/// does.
pub fn run_episode(
    screen_state: &[usize; 16],
    checks: &[Vec<CellPair>],
    unsolve: bool,
    draws: &[IndexPermutation],
) -> (r: Option<([usize; 16], usize)>)
    requires
        checks_shaped(checks.deep_view()),
        swaps_within(draws@, 16),
        forall|k: int| 0 <= k < 16 ==> reading_fits(#[trigger] screen_state@[k]),
    ensures
        r is Some <==> exists|j: int|
            1 <= j <= draws@.len() && #[trigger] reached(
                screen_state@,
                checks.deep_view(),
                unsolve,
                draws@,
                j,
            ),
        match r {
            None => true,
            Some((t, total)) => exists|j: int|
                {
                    &&& first_reached(screen_state@, checks.deep_view(), unsolve, draws@, j)
                    &&& t@ == apply_swaps(screen_state@, #[trigger] draws@.subrange(0, j))
                    &&& total == total_inequality(t@, checks.deep_view())
                },
        },
{
    let mut state = *screen_state;
    match advance_episode(&mut state, checks, unsolve, draws) {
        Some((_used, total)) => Some((state, total)),
        None => None,
    }
}

/// A candidate of total `candidate` beats the best so far, of total `best`:
/// strictly lower when solving, strictly higher when unsolving.
pub open spec fn improves(unsolve: bool, candidate: int, best: int) -> bool {
    if unsolve {
        candidate > best
    } else {
        candidate < best
    }
}

/// Whether a new candidate of inequality `candidate` replaces the best so far:
/// a strictly lower inequality when solving, a strictly higher one when
/// unsolving.
pub fn is_improvement(unsolve: bool, candidate: usize, best: usize) -> (r: bool)
    ensures
        r == improves(unsolve, candidate as int, best as int),
{
    if unsolve {
        candidate > best
    } else {
        candidate < best
    }
}

/// The outcome kept after a run of episodes' outcomes (swap list, total):
/// the first, replaced only by a strictly better later one.
pub open spec fn best_of(outs: Seq<(Seq<IndexPermutation>, int)>, unsolve: bool) -> (
    Seq<IndexPermutation>,
    int,
)
    decreases outs.len(),
{
    if outs.len() <= 1 {
        outs[0]
    } else {
        let b = best_of(outs.drop_last(), unsolve);
        if improves(unsolve, outs.last().1, b.1) {
            outs.last()
        } else {
            b
        }
    }
}

/// Folds one episode's outcome into the kept one: the candidate is kept when
/// nothing is kept yet or when it is strictly better. Returns whether the
/// search stops, which it does once the kept list has two swaps or fewer.
pub fn fold_outcome(
    best: &mut Option<(Vec<IndexPermutation>, usize)>,
    candidate: Vec<IndexPermutation>,
    inequality: usize,
    unsolve: bool,
) -> (stop: bool)
    ensures
        match *old(best) {
            None => *final(best) == Some((candidate, inequality)),
            Some((_, kept)) => if improves(unsolve, inequality as int, kept as int) {
                *final(best) == Some((candidate, inequality))
            } else {
                *final(best) == *old(best)
            },
        },
        match *final(best) {
            None => false,
            Some((kept, _)) => stop == (kept@.len() <= 2),
        },
{
    let replace = match best {
        None => true,
        Some((_, kept)) => is_improvement(unsolve, inequality, *kept),
    };
    if replace {
        *best = Some((candidate, inequality));
    }
    match best {
        None => false,
        Some((kept, _)) => kept.len() <= 2,
    }
}

/// `ps` is what an episode from `s` can yield: the scan's decomposition of a
/// state that some draws reach first.
pub open spec fn episode_result(
    s: Seq<usize>,
    checks: Seq<Seq<CellPair>>,
    unsolve: bool,
    ps: Seq<IndexPermutation>,
) -> bool {
    &&& swaps_within(ps, 16)
    &&& ps.len() < 16
    &&& forall|k: int| 0 <= k < ps.len() ==> #[trigger] ps[k].0 < ps[k].1
    &&& forall|j: int| 0 <= j < ps.len() ==> #[trigger] scan_step(s, apply_swaps(s, ps), ps, j)
    &&& (ps.len() == 0 <==> apply_swaps(s, ps) == s)
    &&& exists|d: Seq<IndexPermutation>, j: int|
        swaps_within(d, 16) && #[trigger] first_reached(s, checks, unsolve, d, j) && apply_swaps(
            s,
            ps,
        ) == apply_swaps(s, d.subrange(0, j))
}

proof fn lemma_reached_concat(
    s: Seq<usize>,
    checks: Seq<Seq<CellPair>>,
    unsolve: bool,
    a: Seq<IndexPermutation>,
    b: Seq<IndexPermutation>,
    j: int,
)
    requires
        0 <= j <= a.len() + b.len(),
    ensures
        j <= a.len() ==> reached(s, checks, unsolve, a + b, j) == reached(s, checks, unsolve, a, j),
        j >= a.len() ==> apply_swaps(s, (a + b).subrange(0, j)) == apply_swaps(
            apply_swaps(s, a),
            b.subrange(0, j - a.len()),
        ),
        j >= a.len() ==> reached(s, checks, unsolve, a + b, j) == reached(
            apply_swaps(s, a),
            checks,
            unsolve,
            b,
            j - a.len(),
        ),
{
    if j <= a.len() {
        assert((a + b).subrange(0, j) =~= a.subrange(0, j));
    }
    if j >= a.len() {
        assert((a + b).subrange(0, j) =~= a + b.subrange(0, j - a.len()));
        lemma_apply_swaps_concat(s, a, b.subrange(0, j - a.len()));
    }
}

proof fn lemma_prefix_within(d: Seq<IndexPermutation>, j: int)
    requires
        swaps_within(d, 16),
        0 <= j <= d.len(),
    ensures
        swaps_within(d.subrange(0, j), 16),
{
    assert forall|k: int| 0 <= k < d.subrange(0, j).len() implies #[trigger] d.subrange(
        0,
        j,
    )[k].0 < 16 && d.subrange(0, j)[k].1 < 16 by {
        assert(d.subrange(0, j)[k] == d[k]);
    }
}

/// The kept outcome is one of the outcomes.
pub proof fn lemma_best_of_member(outs: Seq<(Seq<IndexPermutation>, int)>, unsolve: bool)
    requires
        outs.len() >= 1,
    ensures
        exists|i: int| 0 <= i < outs.len() && best_of(outs, unsolve) == outs[i],
    decreases outs.len(),
{
    if outs.len() == 1 {
        assert(best_of(outs, unsolve) == outs[0]);
    } else {
        let rest = outs.drop_last();
        lemma_best_of_member(rest, unsolve);
        let i = choose|i: int| 0 <= i < rest.len() && best_of(rest, unsolve) == rest[i];
        assert(rest[i] == outs[i]);
        if improves(unsolve, outs.last().1, best_of(rest, unsolve).1) {
            assert(best_of(outs, unsolve) == outs[outs.len() - 1]);
        } else {
            assert(best_of(outs, unsolve) == outs[i]);
        }
    }
}

/// Random swaps drawn at a time within an episode.
pub const BATCH: usize = 100;

/// Randomised search for a short list of swaps that brings `screen_state` to
/// a state with the wanted verdict for `mode`: balanced when `unsolve` is not
/// set, unbalanced when it is. Each episode swaps random cells from the
/// original state until the verdict holds; an episode that tries `ITERATIONS`
/// swaps in vain ends the search with an error. The swap lists of the
/// episodes are folded by `fold_outcome`, for at most `EPISODES` episodes.
pub fn solve(screen_state: [usize; 16], mode: usize, unsolve: bool) -> (r: Result<
    Vec<IndexPermutation>,
    SearchError,
>)
    requires
        1 <= mode <= 5,
        screen_state@.no_duplicates(),
        forall|k: int| 0 <= k < 16 ==> reading_fits(#[trigger] screen_state@[k]),
    ensures
        (forall|t: Seq<usize>|
            t.len() == 16 && t.to_multiset() == screen_state@.to_multiset() ==> balance_verdict(
                t,
                balance_checks(mode as int),
                unsolve,
            )) ==> r is Ok,
        match r {
            Ok(perms) => {
                &&& episode_result(screen_state@, balance_checks(mode as int), unsolve, perms@)
                &&& balance_verdict(
                    apply_swaps(screen_state@, perms@),
                    balance_checks(mode as int),
                    unsolve,
                )
                &&& exists|outs: Seq<(Seq<IndexPermutation>, int)>|
                    {
                        &&& 1 <= outs.len() <= EPISODES
                        &&& perms@ == (#[trigger] best_of(outs, unsolve)).0
                        &&& (outs.len() < EPISODES ==> perms@.len() <= 2)
                        &&& forall|i: int|
                            1 <= i < outs.len() ==> (#[trigger] best_of(outs.subrange(0, i), unsolve)).0.len() > 2
                        &&& forall|i: int|
                            0 <= i < outs.len() ==> {
                                &&& episode_result(
                                    screen_state@,
                                    balance_checks(mode as int),
                                    unsolve,
                                    (#[trigger] outs[i]).0,
                                )
                                &&& outs[i].1 == total_inequality(
                                    apply_swaps(screen_state@, outs[i].0),
                                    balance_checks(mode as int),
                                )
                            }
                    }
            },
            Err(e) => {
                &&& e == SearchError::SearchExhausted { iterations: ITERATIONS }
                &&& exists|d: Seq<IndexPermutation>|
                    d.len() == ITERATIONS && swaps_within(d, 16) && #[trigger] never_reached(
                        screen_state@,
                        balance_checks(mode as int),
                        unsolve,
                        d,
                    )
            },
        },
{
    let checks = get_balance_checks(mode);
    let ghost cv = balance_checks(mode as int);
    let ghost s = screen_state@;
    proof {
        lemma_balance_checks_shape(mode as int);
    }
    let mut rng = rand::thread_rng();

    let mut best: Option<(Vec<IndexPermutation>, usize)> = None;
    let ghost mut outs: Seq<(Seq<IndexPermutation>, int)> = Seq::empty();
    let mut episode: usize = 0;
    let mut stop = false;
    while episode < EPISODES && !stop
        invariant
            checks.deep_view() == cv,
            cv == balance_checks(mode as int),
            checks_shaped(cv),
            s == screen_state@,
            s.no_duplicates(),
            forall|k: int| 0 <= k < 16 ==> reading_fits(#[trigger] s[k]),
            outs.len() == episode <= EPISODES,
            episode == 0 <==> best is None,
            !stop ==> forall|i: int|
                1 <= i <= outs.len() ==> (#[trigger] best_of(outs.subrange(0, i), unsolve)).0.len() > 2,
            stop ==> forall|i: int|
                1 <= i < outs.len() ==> (#[trigger] best_of(outs.subrange(0, i), unsolve)).0.len() > 2,
            stop ==> episode >= 1,
            forall|i: int|
                0 <= i < outs.len() ==> {
                    &&& episode_result(s, cv, unsolve, (#[trigger] outs[i]).0)
                    &&& outs[i].1 == total_inequality(apply_swaps(s, outs[i].0), cv)
                },
            match best {
                None => true,
                Some((kept, total)) => {
                    &&& kept@ == best_of(outs, unsolve).0
                    &&& total == best_of(outs, unsolve).1
                    &&& stop == (kept@.len() <= 2)
                },
            },
        decreases EPISODES - episode,
    {
        let mut solved_state = screen_state;
        let ghost mut drawn: Seq<IndexPermutation> = Seq::empty();
        let ghost mut hit: int = 0;
        let mut outcome: Option<(usize, usize)> = None;
        let mut iteration: usize = 0;
        while iteration < ITERATIONS && outcome.is_none()
            invariant
                checks.deep_view() == cv,
                checks_shaped(cv),
                s == screen_state@,
                iteration <= ITERATIONS,
                drawn.len() == iteration,
                swaps_within(drawn, 16),
                forall|k: int| 0 <= k < 16 ==> reading_fits(#[trigger] solved_state@[k]),
                match outcome {
                    None => {
                        &&& solved_state@ == apply_swaps(s, drawn)
                        &&& never_reached(s, cv, unsolve, drawn)
                    },
                    Some((_, total)) => {
                        &&& first_reached(s, cv, unsolve, drawn, hit)
                        &&& solved_state@ == apply_swaps(s, drawn.subrange(0, hit))
                        &&& total == total_inequality(solved_state@, cv)
                    },
                },
            decreases ITERATIONS - iteration,
        {
            let size: usize = if ITERATIONS - iteration < BATCH {
                ITERATIONS - iteration
            } else {
                BATCH
            };
            let mut batch: Vec<IndexPermutation> = Vec::new();
            while batch.len() < size
                invariant
                    batch@.len() <= size,
                    swaps_within(batch@, 16),
                decreases size - batch@.len(),
            {
                let index1 = random_cell(&mut rng);
                let index2 = random_cell(&mut rng);
                batch.push((index1, index2));
            }
            let ghost mid = solved_state@;
            let ghost old_drawn = drawn;
            let step = advance_episode(&mut solved_state, checks.as_slice(), unsolve, batch.as_slice());
            proof {
                drawn = old_drawn + batch@;
                let la = old_drawn.len() as int;
                assert forall|k: int| 0 <= k < drawn.len() implies #[trigger] drawn[k].0 < 16
                    && drawn[k].1 < 16 by {
                    if k < la {
                        assert(drawn[k] == old_drawn[k]);
                    } else {
                        assert(drawn[k] == batch@[k - la]);
                    }
                }
                match step {
                    None => {
                        lemma_apply_swaps_concat(s, old_drawn, batch@);
                        assert forall|j: int| 1 <= j <= drawn.len() implies !#[trigger] reached(
                            s,
                            cv,
                            unsolve,
                            drawn,
                            j,
                        ) by {
                            lemma_reached_concat(s, cv, unsolve, old_drawn, batch@, j);
                            if j <= la {
                                assert(!reached(s, cv, unsolve, old_drawn, j));
                            } else {
                                assert(!reached(mid, cv, unsolve, batch@, j - la));
                            }
                        }
                    },
                    Some((used, _)) => {
                        hit = la + used as int;
                        lemma_reached_concat(s, cv, unsolve, old_drawn, batch@, hit);
                        assert(reached(mid, cv, unsolve, batch@, used as int));
                        assert forall|i: int| 1 <= i < hit implies !#[trigger] reached(
                            s,
                            cv,
                            unsolve,
                            drawn,
                            i,
                        ) by {
                            lemma_reached_concat(s, cv, unsolve, old_drawn, batch@, i);
                            if i <= la {
                                assert(!reached(s, cv, unsolve, old_drawn, i));
                            } else {
                                assert(!reached(mid, cv, unsolve, batch@, i - la));
                            }
                        }
                    },
                }
            }
            outcome = step;
            iteration = iteration + size;
        }

        let total = match outcome {
            None => {
                proof {
                    lemma_prefix_within(drawn, 1);
                    lemma_apply_swaps_keeps_values(s, drawn.subrange(0, 1));
                    assert(!reached(s, cv, unsolve, drawn, 1));
                }
                return Err(SearchError::SearchExhausted { iterations: ITERATIONS });
            },
            Some((_, total)) => total,
        };

        // Swaps that bring the original state to the one found
        proof {
            lemma_prefix_within(drawn, hit);
            lemma_apply_swaps_keeps_values(s, drawn.subrange(0, hit));
        }
        let permutations = decompose(screen_state.as_slice(), solved_state.as_slice());
        proof {
            assert(episode_result(s, cv, unsolve, permutations@)) by {
                assert(swaps_within(drawn, 16) && first_reached(s, cv, unsolve, drawn, hit));
            }
        }
        let ghost before_outs = outs;
        let ghost old_best = best;
        proof {
            outs = outs.push((permutations@, total as int));
            assert(outs.drop_last() =~= before_outs);
            assert(outs.subrange(0, outs.len() as int) =~= outs);
            assert forall|i: int| 1 <= i <= before_outs.len() implies outs.subrange(0, i)
                =~= before_outs.subrange(0, i) by {}
            assert(before_outs.subrange(0, before_outs.len() as int) =~= before_outs);
        }
        stop = fold_outcome(&mut best, permutations, total, unsolve);
        episode = episode + 1;
    }
    match best {
        Some((kept, _)) => {
            proof {
                assert(outs.subrange(0, outs.len() as int) =~= outs);
                lemma_best_of_member(outs, unsolve);
                let i = choose|i: int| 0 <= i < outs.len() && best_of(outs, unsolve) == outs[i];
                assert(episode_result(s, cv, unsolve, outs[i].0));
                let (d, j) = choose|d: Seq<IndexPermutation>, j: int|
                    swaps_within(d, 16) && #[trigger] first_reached(s, cv, unsolve, d, j)
                        && apply_swaps(s, kept@) == apply_swaps(s, d.subrange(0, j));
                assert(reached(s, cv, unsolve, d, j));
            }
            Ok(kept)
        },
        None => Err(SearchError::SearchExhausted { iterations: ITERATIONS }),
    }
}

} // verus!
