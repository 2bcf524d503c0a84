//! The wizard's entry point.

use crate::parallel::map_indices;
use crate::wizard::exhaustive::{
    exhaustive_result, greedy_choices, known_stores, optimize_exhaustive,
};
use crate::wizard::model::{WizardConfig, WizardInput};
use crate::wizard::neighbor::{climbs, local_optimum};
use crate::wizard::score::{score, valid_choices};
use crate::wizard::scored::{fitted, Assignment, ScoredAssignment};
use crate::wizard::search::{
    after_round, due, first_lowest, gathers, initial_choices, lowest, perturbation, started,
    LocalSearch, SearchState, RESTARTS, ROUNDS, WALKERS,
};
use crate::wizard::solution::WizardSolution;
use rand::rngs::StdRng;
use std::sync::atomic::AtomicU64;
use vstd::prelude::*;

verus! {

/// How to search.
pub enum SearchMode {
    /// Many climbs and iterated local search, optionally seeded with a previous
    /// solution's choices.
    Heuristic { seed: Option<Vec<Option<usize>>> },
    /// All combinations of a few of the candidate stores.
    Exhaustive { candidates: Vec<usize> },
}

/// The choices to start from, if the mode brings any.
pub open spec fn seed_of(mode: SearchMode) -> Option<Vec<Option<usize>>> {
    match mode {
        SearchMode::Heuristic { seed } => seed,
        SearchMode::Exhaustive { .. } => None,
    }
}

/// What a heuristic search promises of its one solution: it is a local optimum,
/// and scores no higher than the seed and than any of the greedy starts.
pub open spec fn heuristic_solution(
    input: &WizardInput,
    config: &WizardConfig,
    seed: Option<Vec<Option<usize>>>,
    solution: WizardSolution,
) -> bool {
    let ch = solution.raw_choices@;
    &&& valid_choices(input, ch)
    &&& solution.describes(input, config, ch)
    &&& local_optimum(input, config, ch)
    &&& seed matches Some(choices) ==> solution.score <= score(
        input,
        config,
        fitted(input, choices@),
    )
    &&& forall|i: usize|
        i < RESTARTS ==> solution.score <= score(
            input,
            config,
            #[trigger] initial_choices(input, i),
        )
}

/// A walk from `start` with this random seed can end with these choices.
pub open spec fn walk_end<A: Fn(&ScoredAssignment, u64) -> Vec<Option<usize>>>(
    anneal: &A,
    start: &ScoredAssignment,
    seed: u64,
    end: Vec<Option<usize>>,
) -> bool {
    call_ensures(*anneal, (start, seed), end)
}

/// The assignments that walk ends stand for.
pub open spec fn fitted_ends(input: &WizardInput, ends: Seq<Vec<Option<usize>>>) -> Seq<
    Seq<Option<usize>>,
> {
    ends.map_values(|end: Vec<Option<usize>>| fitted(input, end@))
}

/// These walks from `start` can end so, and `outcome` is the first of their ends
/// with the lowest score.
pub open spec fn walked<A: Fn(&ScoredAssignment, u64) -> Vec<Option<usize>>>(
    input: &WizardInput,
    config: &WizardConfig,
    anneal: &A,
    start: &ScoredAssignment,
    walks: Seq<u64>,
    ends: Seq<Vec<Option<usize>>>,
    outcome: Seq<Option<usize>>,
) -> bool {
    &&& ends.len() == walks.len()
    &&& forall|w: int|
        0 <= w < walks.len() ==> walk_end(anneal, start, walks[w], #[trigger] ends[w])
    &&& first_lowest(input, config, fitted_ends(input, ends), outcome)
}

/// The outcome of a round's candidate after its annealing walks: one walk from
/// the candidate for each seed, and the first of their ends with the lowest
/// score.  Without walks it is the candidate.
fn run_walks<A: Fn(&ScoredAssignment, u64) -> Vec<Option<usize>> + Sync + Send>(
    candidate: ScoredAssignment,
    walks: &Vec<u64>,
    input: &WizardInput,
    config: &WizardConfig,
    anneal: &A,
) -> (outcome: ScoredAssignment)
    requires
        input.wf(),
        candidate.wf(input, config),
        forall|a: &ScoredAssignment, s: u64| #[trigger] call_requires(*anneal, (a, s)),
    ensures
        outcome.wf(input, config),
        walks@.len() == 0 ==> outcome == candidate,
        walks@.len() > 0 ==> exists|ends: Seq<Vec<Option<usize>>>| #[trigger]
            walked(input, config, anneal, &candidate, walks@, ends, outcome.choices@),
{
    let n: usize = walks.len();
    let start = &candidate;
    let run = |w: usize| -> (end: ScoredAssignment)
        requires
            n == walks@.len() && w < n,
        ensures
            end.wf(input, config) && exists|raw: Vec<Option<usize>>| #[trigger]
                walk_end(anneal, start, walks@[w as int], raw) && end.choices@ == fitted(
                    input,
                    raw@,
                ),
    {
        let choices = anneal(start, walks[w]);
        assert(walk_end(anneal, start, walks@[w as int], choices));
        ScoredAssignment::new(Assignment { choices }, input, config)
    };
    let ends = map_indices(n, run);
    let ghost whole = ends@;
    let ghost raws = Seq::new(
        whole.len(),
        |i: int|
            choose|raw: Vec<Option<usize>>| #[trigger]
                walk_end(anneal, start, walks@[i], raw) && whole[i].choices@ == fitted(
                    input,
                    raw@,
                ),
    );
    proof {
        assert forall|i: int| 0 <= i < whole.len() implies (#[trigger] whole[i]).wf(input, config)
            && walk_end(anneal, start, walks@[i], raws[i]) && whole[i].choices@ == fitted(
            input,
            raws[i]@,
        ) by {
            let j = i as usize;
            assert(whole[j as int] == whole[i]);
        }
    }
    match lowest(ends, input, config) {
        Some(best) => {
            proof {
                let i = choose|i: int|
                    0 <= i < whole.len() && #[trigger] whole[i] == best && forall|k: int|
                        0 <= k < i ==> (#[trigger] whole[k]).score > best.score;
                let ch = best.choices@;
                let list = fitted_ends(input, raws);
                assert(ch == list[i]);
                assert forall|k: int| 0 <= k < list.len() implies score(input, config, ch)
                    <= score(input, config, #[trigger] list[k]) && (k < i ==> score(
                    input,
                    config,
                    ch,
                ) < score(input, config, list[k])) by {
                    assert(list[k] == fitted(input, raws[k]@));
                    assert(whole[k].score == score(input, config, whole[k].choices@));
                }
                assert(first_lowest(input, config, list, ch));
                assert forall|w: int| 0 <= w < walks@.len() implies walk_end(
                    anneal,
                    &candidate,
                    walks@[w],
                    #[trigger] raws[w],
                ) by {
                    assert(whole[w].wf(input, config));
                }
                assert(walked(input, config, anneal, &candidate, walks@, raws, ch));
            }
            best
        },
        None => candidate,
    }
}

/// What can become of a round's candidate `c`: in a round that empties a store it
/// stays as it is, in any other it is annealed.
pub open spec fn annealed<A: Fn(&ScoredAssignment, u64) -> Vec<Option<usize>>>(
    input: &WizardInput,
    config: &WizardConfig,
    anneal: &A,
    s: SearchState,
    c: Seq<Option<usize>>,
    outcome: Seq<Option<usize>>,
) -> bool {
    if gathers(config, s) {
        outcome == c
    } else {
        exists|start: ScoredAssignment, walks: Seq<u64>, ends: Seq<Vec<Option<usize>>>| #[trigger]
            walked(input, config, anneal, &start, walks, ends, outcome) && start.choices@ == c
                && walks.len() == WALKERS
    }
}

/// A round from state `s` to state `t`: the best assignment is perturbed to `p`,
/// climbed to `c`, annealed to `o` and climbed to `top`.
pub open spec fn round_by<A: Fn(&ScoredAssignment, u64) -> Vec<Option<usize>>>(
    input: &WizardInput,
    config: &WizardConfig,
    anneal: &A,
    s: SearchState,
    t: SearchState,
    p: Seq<Option<usize>>,
    c: Seq<Option<usize>>,
    o: Seq<Option<usize>>,
    top: Seq<Option<usize>>,
) -> bool {
    &&& due(s)
    &&& perturbation(input, config, s, p)
    &&& climbs(input, config, p, c)
    &&& annealed(input, config, anneal, s, c, o)
    &&& climbs(input, config, o, top)
    &&& t == after_round(input, config, s, top)
}

pub open spec fn round_step<A: Fn(&ScoredAssignment, u64) -> Vec<Option<usize>>>(
    input: &WizardInput,
    config: &WizardConfig,
    anneal: &A,
    s: SearchState,
    t: SearchState,
) -> bool {
    exists|
        p: Seq<Option<usize>>,
        c: Seq<Option<usize>>,
        o: Seq<Option<usize>>,
        top: Seq<Option<usize>>,
    | #[trigger]
        round_by(input, config, anneal, s, t, p, c, o, top)
}

/// The states of a heuristic search: from the best start, round by round.
pub open spec fn search_trace<A: Fn(&ScoredAssignment, u64) -> Vec<Option<usize>>>(
    input: &WizardInput,
    config: &WizardConfig,
    anneal: &A,
    seed: Option<Vec<Option<usize>>>,
    trace: Seq<SearchState>,
) -> bool {
    &&& trace.len() > 0
    &&& trace[0].round == 0 && trace[0].no_improve == 0
    &&& started(
        input,
        config,
        match seed {
            Some(choices) => Some(choices@),
            None => None,
        },
        trace[0].best,
    )
    &&& forall|i: int|
        0 <= i < trace.len() - 1 ==> round_step(
            input,
            config,
            anneal,
            #[trigger] trace[i],
            trace[i + 1],
        )
}

/// The solution is what a heuristic search found once no further round was due.
pub open spec fn searched<A: Fn(&ScoredAssignment, u64) -> Vec<Option<usize>>>(
    input: &WizardInput,
    config: &WizardConfig,
    anneal: &A,
    seed: Option<Vec<Option<usize>>>,
    solution: WizardSolution,
) -> bool {
    exists|trace: Seq<SearchState>| #[trigger]
        search_trace(input, config, anneal, seed, trace) && !due(trace.last())
            && solution.describes(input, config, trace.last().best)
}

/// Searches the input.  An exhaustive search with candidates returns its best
/// solutions; any other search returns one.  `anneal` walks from an assignment
/// with the given random seed and returns the choices it ends with; nothing is
/// taken for granted about them.  `progress` counts the combinations that an
/// exhaustive search tries.
pub fn optimize_input<A: Fn(&ScoredAssignment, u64) -> Vec<Option<usize>> + Sync + Send>(
    input: &WizardInput,
    config: &WizardConfig,
    mode: &SearchMode,
    rng: &mut StdRng,
    progress: &AtomicU64,
    anneal: A,
) -> (solutions: Vec<WizardSolution>)
    requires
        input.wf(),
        mode matches SearchMode::Exhaustive { candidates } ==> known_stores(input, candidates@),
        forall|a: &ScoredAssignment, s: u64| #[trigger] call_requires(anneal, (a, s)),
    ensures
        match mode {
            SearchMode::Exhaustive { candidates } if candidates@.len() > 0 => {
                let want = exhaustive_result(input, config, candidates@);
                &&& solutions@.len() == want.len()
                &&& forall|i: int|
                    0 <= i < want.len() ==> (#[trigger] solutions@[i]).describes(
                        input,
                        config,
                        greedy_choices(input, want[i]),
                    )
            },
            _ => {
                &&& solutions@.len() == 1
                &&& heuristic_solution(input, config, seed_of(*mode), solutions@[0])
                &&& searched(input, config, &anneal, seed_of(*mode), solutions@[0])
            },
        },
{
    let seed: Option<&Vec<Option<usize>>> = match mode {
        SearchMode::Exhaustive { candidates } => {
            if let Some(solutions) = optimize_exhaustive(input, config, candidates, progress) {
                return solutions;
            }
            None
        },
        SearchMode::Heuristic { seed } => match seed {
            Some(choices) => Some(choices),
            None => None,
        },
    };
    let mut search = LocalSearch::start(input, config, seed);
    let ghost start = search.best.score;
    let ghost mut trace: Seq<SearchState> = seq![search@];
    loop
        invariant
            input.wf(),
                search.wf(input, config),
            search.best.score <= start,
            search_trace(input, config, &anneal, seed_of(*mode), trace),
            trace.last() == search@,
            forall|a: &ScoredAssignment, s: u64| #[trigger] call_requires(anneal, (a, s)),
        ensures
            search.wf(input, config),
            search.best.score <= start,
            search_trace(input, config, &anneal, seed_of(*mode), trace),
            trace.last() == search@,
            !due(search@),
        decreases ROUNDS - search.round,
    {
        match search.next_round(input, config, rng) {
            None => {
                break;
            },
            Some(round) => {
                let ghost s = search@;
                let ghost c = round.candidate.choices@;
                let ghost p = choose|p: Seq<Option<usize>>| #[trigger]
                    perturbation(input, config, s, p) && climbs(input, config, p, c);
                let outcome = run_walks(round.candidate, &round.walks, input, config, &anneal);
                let ghost o = outcome.choices@;
                assert(annealed(input, config, &anneal, s, c, o));
                search.end_round(outcome, input, config);
                proof {
                    let top = choose|top: Seq<Option<usize>>| #[trigger]
                        climbs(input, config, o, top) && search@ == after_round(
                            input,
                            config,
                            s,
                            top,
                        );
                    assert(round_by(input, config, &anneal, s, search@, p, c, o, top));
                    let longer = trace.push(search@);
                    assert forall|i: int| 0 <= i < longer.len() - 1 implies round_step(
                        input,
                        config,
                        &anneal,
                        #[trigger] longer[i],
                        longer[i + 1],
                    ) by {
                        if i < trace.len() - 1 {
                            assert(round_step(input, config, &anneal, trace[i], trace[i + 1]));
                        } else {
                            assert(longer[i] == s);
                        }
                    }
                    trace = longer;
                }
            },
        }
    }
    search.finish(input, config)
}

/// A search from a seed never ends above the solution that the seed stands for.
pub proof fn law_seed_no_worse(
    input: &WizardInput,
    config: &WizardConfig,
    seed: Vec<Option<usize>>,
    found: WizardSolution,
    replayed: WizardSolution,
)
    requires
        heuristic_solution(input, config, Some(seed), found),
        replayed.describes(input, config, fitted(input, seed@)),
    ensures
        found.score <= replayed.score,
{
}

} // verus!
