//! Runs over increasing tolerances, and what past runs have to do with them.

use crate::cache::solutions::{past_solution, record_of, with_solution, Past, Record, WizardHistory};
use crate::cache::Cache;
use crate::order::{ascending, by_rank, law_stable_sorted, sort_by_rank, stable_sorted, Ranked};
use crate::rows::{lemma_filter_empty, lemma_filter_step, lemma_views_push, views};
use crate::text::{same_text, texts};
use crate::wizard::exhaustive::{
    exhaustive_result, greedy_choices, known_stores, same_choices, TOP_N,
};
use crate::wizard::model::{
    Strategy, WizardCard, WizardConfig, WizardInput, PRICE_WEIGHT, SKIP_PENALTY, STORE_PENALTY,
};
use crate::wizard::optimize::{heuristic_solution, optimize_input, searched, SearchMode};
use crate::wizard::score::{raw_score, valid_choices};
use crate::wizard::scored::{fitted, lemma_fitted_valid, ScoredAssignment};
use crate::wizard::search::law_tolerance_lowers_score;
use crate::wizard::solution::{law_solution_adds_up, solution_from_choices, WizardSolution};
use rand::rngs::StdRng;
use std::sync::atomic::AtomicU64;
use vstd::prelude::*;

verus! {

impl Strategy {
    pub open spec fn label(self) -> Seq<char> {
        match self {
            Strategy::Simplest => "simplest"@,
            Strategy::Cheapest => "cheapest"@,
        }
    }

    /// The strategy's name.
    pub fn name(self) -> (name: &'static str)
        ensures
            name@ == self.label(),
    {
        match self {
            Strategy::Simplest => "simplest",
            Strategy::Cheapest => "cheapest",
        }
    }

    pub open spec fn opposite(self) -> Strategy {
        match self {
            Strategy::Simplest => Strategy::Cheapest,
            Strategy::Cheapest => Strategy::Simplest,
        }
    }

    /// The other strategy.
    pub fn other(self) -> (other: Strategy)
        ensures
            other == self.opposite(),
    {
        match self {
            Strategy::Simplest => Strategy::Cheapest,
            Strategy::Cheapest => Strategy::Simplest,
        }
    }

    /// The strategy of that name.
    pub fn from_name(name: &str) -> (strategy: Option<Strategy>)
        ensures
            match strategy {
                Some(s) => name@ == s.label(),
                None => name@ != "simplest"@ && name@ != "cheapest"@,
            },
    {
        if same_text(name, "simplest") {
            Some(Strategy::Simplest)
        } else if same_text(name, "cheapest") {
            Some(Strategy::Cheapest)
        } else {
            None
        }
    }
}

/// Where the past run for a tolerance stands, if there is one.
pub open spec fn run_at(runs: Seq<Past>, t: usize) -> Option<int>
    decreases runs.len(),
{
    if runs.len() == 0 {
        None
    } else {
        match run_at(runs.drop_last(), t) {
            Some(i) => Some(i),
            None => if runs.last().tolerance == t {
                Some(runs.len() - 1)
            } else {
                None
            },
        }
    }
}

/// The past run for a tolerance.
pub open spec fn run_for(runs: Seq<Past>, t: usize) -> Option<Past> {
    match run_at(runs, t) {
        Some(i) => Some(runs[i]),
        None => None,
    }
}

/// Where the past run for a tolerance stands, if there is one.
fn find_run(runs: &Vec<WizardHistory>, t: usize) -> (at: Option<usize>)
    ensures
        match at {
            Some(i) => i < runs@.len() && run_at(views(runs@), t) == Some(i as int),
            None => run_at(views(runs@), t) is None,
        },
{
    let ghost all = views(runs@);
    let mut i: usize = 0;
    assert(all.take(0) =~= Seq::empty());
    while i < runs.len()
        invariant
            all == views(runs@),
            i <= runs@.len(),
            run_at(all.take(i as int), t) is None,
        decreases runs@.len() - i,
    {
        proof {
            let s = all.take(i + 1);
            assert(s.drop_last() =~= all.take(i as int));
            assert(s.last() == runs@[i as int]@);
        }
        if runs[i].tolerance == t {
            proof {
                lemma_run_at_prefix(all, i + 1, t);
            }
            return Some(i);
        }
        i += 1;
    }
    assert(all.take(i as int) =~= all);
    None
}

/// A run found among the first runs is the one found among all.
proof fn lemma_run_at_prefix(runs: Seq<Past>, k: int, t: usize)
    requires
        0 <= k <= runs.len(),
        run_at(runs.take(k), t) is Some,
    ensures
        run_at(runs, t) == run_at(runs.take(k), t),
    decreases runs.len() - k,
{
    if k == runs.len() {
        assert(runs.take(k) =~= runs);
    } else {
        assert(runs.take(k + 1).drop_last() =~= runs.take(k));
        lemma_run_at_prefix(runs, k + 1, t);
    }
}

/// The score of a past run.
pub open spec fn past_score(run: Past, t: usize, strategy: Strategy) -> int {
    raw_score(
        run.total_cost as int,
        run.num_stores as int,
        run.num_skipped as int,
        t as int,
        strategy,
    )
}

/// The score of a past run.
pub fn score_of_history(run: &WizardHistory, t: usize, strategy: Strategy) -> (score: u128)
    ensures
        score == past_score(run@, t, strategy),
{
    let price_weight: u128 = PRICE_WEIGHT as u128;
    let store_penalty: u128 = STORE_PENALTY as u128;
    let skip_penalty: u128 = SKIP_PENALTY as u128;
    assert(price_weight == 50000 && store_penalty == 5000 && skip_penalty == 500000);
    let excess: u128 = if run.num_skipped > t {
        (run.num_skipped - t) as u128
    } else {
        0
    };
    let base: u128 = match strategy {
        Strategy::Simplest => run.num_stores as u128 * price_weight,
        Strategy::Cheapest => if run.num_stores > 1 {
            (run.num_stores - 1) as u128 * store_penalty
        } else {
            0
        },
    };
    run.total_cost as u128 + base + excess * skip_penalty
}

/// The score beats the past run for the tolerance; without one, every score does.
pub open spec fn improves(runs: Seq<Past>, t: usize, strategy: Strategy, score: u64) -> bool {
    match run_for(runs, t) {
        Some(run) => score < past_score(run, t, strategy),
        None => true,
    }
}

/// Does the score beat the past run for the tolerance?
pub fn is_improvement(runs: &Vec<WizardHistory>, t: usize, strategy: Strategy, score: u64) -> (b:
    bool)
    ensures
        b == improves(views(runs@), t, strategy, score),
{
    match find_run(runs, t) {
        Some(i) => (score as u128) < score_of_history(&runs[i], t, strategy),
        None => true,
    }
}

/// The choices to go on from: those of the past run for the tolerance where it
/// scores lower, else the best found.
pub open spec fn next_seed(
    runs: Seq<Past>,
    t: usize,
    strategy: Strategy,
    best: WizardSolution,
) -> Seq<Option<usize>> {
    match run_for(runs, t) {
        Some(run) if past_score(run, t, strategy) < best.score => run.raw_choices,
        _ => best.raw_choices@,
    }
}

/// The choices to go on from.
pub fn seed_choices(
    runs: &Vec<WizardHistory>,
    t: usize,
    strategy: Strategy,
    best: &WizardSolution,
) -> (choices: Vec<Option<usize>>)
    ensures
        choices@ == next_seed(views(runs@), t, strategy, *best),
{
    let copy = match find_run(runs, t) {
        Some(i) if score_of_history(&runs[i], t, strategy) < best.score as u128 => {
            let c = runs[i].raw_choices.clone();
            assert(c@ =~= runs@[i as int].raw_choices@);
            assert(views(runs@)[i as int] == runs@[i as int]@);
            c
        },
        _ => {
            let c = best.raw_choices.clone();
            assert(c@ =~= best.raw_choices@);
            c
        },
    };
    copy
}

/// The runs with another, unless the one for its tolerance costs no more.
pub open spec fn with_run(runs: Seq<Past>, new: Past) -> Seq<Past> {
    match run_at(runs, new.tolerance) {
        Some(i) => if new.total_cost < runs[i].total_cost {
            runs.update(i, new)
        } else {
            runs
        },
        None => runs.push(new),
    }
}

pub open spec fn with_runs(runs: Seq<Past>, more: Seq<Past>) -> Seq<Past>
    decreases more.len(),
{
    if more.len() == 0 {
        runs
    } else {
        with_run(with_runs(runs, more.drop_last()), more.last())
    }
}

/// The cheaper of two past runs for each tolerance.
pub fn merge_histories(runs: Vec<WizardHistory>, more: Vec<WizardHistory>) -> (merged: Vec<
    WizardHistory,
>)
    ensures
        views(merged@) == with_runs(views(runs@), views(more@)),
{
    let ghost first = views(runs@);
    let ghost all = views(more@);
    let mut merged = runs;
    let mut rest = more;
    let ghost mut done: int = 0;
    assert(all.take(0) =~= Seq::empty());
    assert(all.skip(0) =~= all);
    while rest.len() > 0
        invariant
            0 <= done <= all.len(),
            views(rest@) == all.skip(done),
            views(merged@) == with_runs(first, all.take(done)),
        decreases rest@.len(),
    {
        let ghost before = rest@;
        let ghost m0 = merged@;
        let run = rest.remove(0);
        proof {
            assert(views(before).len() == before.len());
            assert(views(before)[0] == run@);
            assert(all.skip(done)[0] == all[done]);
            assert(views(rest@) =~= views(before).skip(1));
            assert(all.skip(done + 1) =~= all.skip(done).skip(1));
            let t = all.take(done + 1);
            assert(t.drop_last() =~= all.take(done));
            assert(t.last() == run@);
        }
        match find_run(&merged, run.tolerance) {
            Some(i) => {
                assert(views(merged@)[i as int] == merged@[i as int]@);
                if run.total_cost < merged[i].total_cost {
                    merged.set(i, run);
                    assert(views(merged@) =~= views(m0).update(i as int, run@));
                }
            },
            None => {
                proof {
                    lemma_views_push(merged@, run);
                }
                merged.push(run);
            },
        }
        proof {
            done = done + 1;
        }
    }
    proof {
        assert(views(rest@).len() == 0);
        assert(all.take(done) =~= all);
    }
    merged
}

/// The names of the cards without a listing.
pub open spec fn bare_cards(cards: Seq<WizardCard>) -> Seq<Seq<char>>
    decreases cards.len(),
{
    if cards.len() == 0 {
        Seq::empty()
    } else {
        let rest = bare_cards(cards.drop_last());
        if cards.last().options@.len() == 0 {
            rest.push(cards.last().name@)
        } else {
            rest
        }
    }
}

/// The names of the cards without a listing.
pub fn uncached_cards(input: &WizardInput) -> (names: Vec<String>)
    ensures
        texts(names@) == bare_cards(input.cards@),
{
    let ghost all = input.cards@;
    let mut names: Vec<String> = Vec::new();
    let mut i: usize = 0;
    assert(all.take(0) =~= Seq::empty());
    assert(texts(names@) =~= Seq::empty());
    while i < input.cards.len()
        invariant
            all == input.cards@,
            i <= all.len(),
            texts(names@) == bare_cards(all.take(i as int)),
        decreases all.len() - i,
    {
        proof {
            let t = all.take(i + 1);
            assert(t.drop_last() =~= all.take(i as int));
            assert(t.last() == all[i as int]);
        }
        if input.cards[i].options.len() == 0 {
            let ghost n0 = names@;
            names.push(input.cards[i].name.clone());
            assert(texts(names@) =~= texts(n0).push(all[i as int].name@));
        }
        i += 1;
    }
    assert(all.take(i as int) =~= all);
    names
}

/// A run over the tolerances 0, 1, 2 and so on.  Each heuristic search is seeded
/// from the one before.
pub struct Ladder {
    pub strategy: Strategy,
    /// The stores to combine, for an exhaustive run.
    pub candidates: Option<Vec<usize>>,
    /// The next tolerance.
    pub next: usize,
    /// The choices that seed the next heuristic search.
    pub seed: Option<Vec<Option<usize>>>,
    /// The solutions found, each with its tolerance, best first within one.
    pub solutions: Vec<(usize, WizardSolution)>,
}

impl Ladder {
    pub open spec fn wf(&self, input: &WizardInput) -> bool {
        self.candidates matches Some(c) ==> known_stores(input, c@)
    }

    /// The run before its first search.
    pub fn new(strategy: Strategy, candidates: Option<Vec<usize>>) -> (run: Self)
        ensures
            run.strategy == strategy,
            run.candidates == candidates,
            run.next == 0,
            run.seed is None,
            run.solutions@.len() == 0,
    {
        Ladder { strategy, candidates, next: 0, seed: None, solutions: Vec::new() }
    }

    /// The configuration of the next search.
    pub open spec fn config(&self) -> WizardConfig {
        WizardConfig { strategy: self.strategy, tolerance: self.next }
    }

    /// Searches at the next tolerance.
    pub fn step<A: Fn(&ScoredAssignment, u64) -> Vec<Option<usize>> + Sync + Send>(
        &mut self,
        input: &WizardInput,
        runs: &Vec<WizardHistory>,
        rng: &mut StdRng,
        progress: &AtomicU64,
        anneal: A,
    )
        requires
            input.wf(),
            old(self).wf(input),
            old(self).next < usize::MAX,
            forall|a: &ScoredAssignment, s: u64| #[trigger] call_requires(anneal, (a, s)),
        ensures
            final(self).wf(input),
            final(self).strategy == old(self).strategy,
            final(self).candidates == old(self).candidates,
            final(self).next == old(self).next + 1,
            ({
                let before = old(self).solutions@;
                let after = final(self).solutions@;
                let n = before.len();
                let config = old(self).config();
                &&& n <= after.len()
                &&& after.take(n as int) == before
                &&& forall|i: int| n <= i < after.len() ==> (#[trigger] after[i]).0 == config.tolerance
                &&& match old(self).candidates {
                    Some(c) if c@.len() > 0 => {
                        let want = exhaustive_result(input, &config, c@);
                        &&& after.len() == n + want.len()
                        &&& forall|i: int|
                            0 <= i < want.len() ==> (#[trigger] after[n + i]).1.describes(
                                input,
                                &config,
                                greedy_choices(input, want[i]),
                            )
                        &&& final(self).seed == old(self).seed
                    },
                    Some(c) => after.len() == n + 1 && heuristic_solution(
                        input,
                        &config,
                        None,
                        after[n as int].1,
                    ) && searched(input, &config, &anneal, None, after[n as int].1) && final(self).seed
                        == old(self).seed,
                    None => after.len() == n + 1 && heuristic_solution(
                        input,
                        &config,
                        old(self).seed,
                        after[n as int].1,
                    ) && searched(
                        input,
                        &config,
                        &anneal,
                        old(self).seed,
                        after[n as int].1,
                    ) && (final(self).seed matches Some(s) && s@ == next_seed(
                        views(runs@),
                        config.tolerance,
                        config.strategy,
                        after[n as int].1,
                    )),
                }
            }),
    {
        let t: usize = self.next;
        let config = WizardConfig { strategy: self.strategy, tolerance: t };
        let mut held: Option<Vec<Option<usize>>> = None;
        let mode = match &self.candidates {
            Some(c) => {
                let copy = c.clone();
                assert(copy@ =~= c@);
                SearchMode::Exhaustive { candidates: copy }
            },
            None => {
                std::mem::swap(&mut held, &mut self.seed);
                SearchMode::Heuristic { seed: held }
            },
        };
        let mut found = optimize_input(input, &config, &mode, rng, progress, anneal);
        let ghost whole = found@;
        if self.candidates.is_none() {
            self.seed = Some(seed_choices(runs, t, self.strategy, &found[0]));
        }
        let ghost first = self.solutions@;
        let ghost seed_now = self.seed;
        let ghost mut done: int = 0;
        assert(whole.skip(0) =~= whole);
        while found.len() > 0
            invariant
                0 <= done <= whole.len(),
                found@ == whole.skip(done),
                self.strategy == old(self).strategy,
                self.candidates == old(self).candidates,
                self.next == old(self).next,
                self.next == t,
                self.seed == seed_now,
                self.solutions@.len() == first.len() + done,
                self.solutions@.take(first.len() as int) == first,
                forall|i: int|
                    0 <= i < done ==> (#[trigger] self.solutions@[first.len() + i]) == (t, whole[i]),
            decreases found@.len(),
        {
            let ghost s0 = self.solutions@;
            let solution = found.remove(0);
            self.solutions.push((t, solution));
            proof {
                assert(solution == whole[done]);
                assert(found@ =~= whole.skip(done + 1));
                assert(self.solutions@.take(first.len() as int) =~= s0.take(first.len() as int));
                done = done + 1;
            }
        }
        self.next = t + 1;
        proof {
            let n = first.len();
            assert forall|i: int| n <= i < self.solutions@.len() implies (
            #[trigger] self.solutions@[i]).0 == t by {
                assert(self.solutions@[n + (i - n)] == (t, whole[i - n]));
            }
            assert(whole.len() > 0 ==> self.solutions@[n + 0int] == (t, whole[0]));
            assert(config == old(self).config());
            match old(self).candidates {
                Some(c) if c@.len() > 0 => {
                    let want = exhaustive_result(input, &config, c@);
                    assert(whole.len() == want.len());
                    assert forall|i: int| 0 <= i < want.len() implies (
                    #[trigger] self.solutions@[n + i]).1.describes(
                        input,
                        &config,
                        greedy_choices(input, want[i]),
                    ) by {
                        assert(self.solutions@[n + i] == (t, whole[i]));
                    }
                },
                Some(c) => {
                    assert(heuristic_solution(input, &config, None, whole[0]));
                },
                None => {
                    assert(heuristic_solution(input, &config, old(self).seed, whole[0]));
                },
            }
        }
    }
}

/// The place of a solution among those of its tolerance, from 1 on.
pub open spec fn rank_of(tolerances: Seq<usize>, i: int) -> nat {
    tolerances.take(i + 1).filter(|t: usize| t == tolerances[i]).len()
}

pub open spec fn tolerances_of(solutions: Seq<(usize, WizardSolution)>) -> Seq<usize> {
    solutions.map_values(|s: (usize, WizardSolution)| s.0)
}

/// The place of a solution among those of its tolerance, from 1 on.
fn rank_at(solutions: &Vec<(usize, WizardSolution)>, i: usize) -> (rank: usize)
    requires
        i < solutions@.len(),
    ensures
        rank == rank_of(tolerances_of(solutions@), i as int),
{
    let ghost ts = tolerances_of(solutions@);
    let t: usize = solutions[i].0;
    let ghost p = |u: usize| u == ts[i as int];
    let n: usize = solutions.len();
    let mut rank: usize = 0;
    let mut k: usize = 0;
    proof {
        lemma_filter_empty(p);
        assert(ts.take(0) =~= Seq::empty());
    }
    while k <= i
        invariant
            ts == tolerances_of(solutions@),
            p == (|u: usize| u == ts[i as int]),
            t == ts[i as int],
            i < n == solutions@.len(),
            k <= i + 1,
            rank == ts.take(k as int).filter(p).len(),
            rank <= k,
        decreases i + 1 - k,
    {
        proof {
            lemma_filter_step(ts, k as int, p);
        }
        if solutions[k].0 == t {
            rank += 1;
        }
        k += 1;
    }
    rank
}

/// The solution can be recorded: its counts and costs add up within range.
pub open spec fn recordable(solution: WizardSolution) -> bool {
    &&& solution.skipped@.len() <= solution.assignments@.len()
    &&& solution.total_card_cost + solution.total_shipping <= u64::MAX
}

/// Can the solution be recorded?
pub fn is_recordable(solution: &WizardSolution) -> (b: bool)
    ensures
        b == recordable(*solution),
{
    solution.skipped.len() <= solution.assignments.len() && solution.total_card_cost <= u64::MAX
        - solution.total_shipping
}

/// The records once the first `k` solutions that beat the past run for their
/// tolerance are recorded.
pub open spec fn recorded(
    rows: Seq<Record>,
    solutions: Seq<(usize, WizardSolution)>,
    runs: Seq<Past>,
    strategy: Strategy,
    eu_destination: bool,
    exhaustive: bool,
    now: i64,
    k: int,
) -> Seq<Record>
    decreases k,
{
    if k <= 0 {
        rows
    } else {
        let rest = recorded(
            rows,
            solutions,
            runs,
            strategy,
            eu_destination,
            exhaustive,
            now,
            k - 1,
        );
        let t = solutions[k - 1].0;
        if improves(runs, t, strategy, solutions[k - 1].1.score) {
            with_solution(
                rest,
                record_of(
                    strategy.label(),
                    t,
                    eu_destination,
                    exhaustive,
                    rank_of(tolerances_of(solutions), k - 1) as usize,
                    &solutions[k - 1].1,
                    now,
                ),
            )
        } else {
            rest
        }
    }
}

/// Records the solutions that beat the past run for their tolerance, each in its
/// place among those of its tolerance.
pub fn record_run(
    cache: &mut Cache,
    solutions: &Vec<(usize, WizardSolution)>,
    runs: &Vec<WizardHistory>,
    strategy: Strategy,
    eu_destination: bool,
    exhaustive: bool,
    now: i64,
)
    requires
        forall|i: int| 0 <= i < solutions@.len() ==> recordable((#[trigger] solutions@[i]).1),
    ensures
        final(cache)@.solutions == recorded(
            old(cache)@.solutions,
            solutions@,
            views(runs@),
            strategy,
            eu_destination,
            exhaustive,
            now,
            solutions@.len() as int,
        ),
        final(cache)@.listings == old(cache)@.listings,
        final(cache)@.names == old(cache)@.names,
{
    let mut i: usize = 0;
    while i < solutions.len()
        invariant
            i <= solutions@.len(),
            forall|k: int| 0 <= k < solutions@.len() ==> recordable((#[trigger] solutions@[k]).1),
            cache@.solutions == recorded(
                old(cache)@.solutions,
                solutions@,
                views(runs@),
                strategy,
                eu_destination,
                exhaustive,
                now,
                i as int,
            ),
            cache@.listings == old(cache)@.listings,
            cache@.names == old(cache)@.names,
        decreases solutions@.len() - i,
    {
        let t: usize = solutions[i].0;
        assert(recordable(solutions@[i as int].1));
        if is_improvement(runs, t, strategy, solutions[i].1.score) {
            let rank: usize = rank_at(solutions, i);
            cache.save_wizard_solution(
                strategy.name(),
                t,
                eu_destination,
                exhaustive,
                rank,
                &solutions[i].1,
                now,
            );
        }
        i += 1;
    }
}

/// The first solution of each tolerance.
pub open spec fn firsts(solutions: Seq<(usize, WizardSolution)>) -> Seq<(usize, WizardSolution)>
    decreases solutions.len(),
{
    if solutions.len() == 0 {
        Seq::empty()
    } else {
        let rest = firsts(solutions.drop_last());
        if tolerances_of(rest).contains(solutions.last().0) {
            rest
        } else {
            rest.push(solutions.last())
        }
    }
}

/// What is shown for a tolerance: the solution found, or the past run where the
/// solution does not beat it.
pub open spec fn shown_for(
    found: (usize, WizardSolution),
    runs: Seq<Past>,
    input: &WizardInput,
    strategy: Strategy,
    shown: (usize, WizardSolution),
) -> bool {
    let t = found.0;
    &&& shown.0 == t
    &&& if improves(runs, t, strategy, found.1.score) {
        shown.1 == found.1
    } else {
        run_for(runs, t) matches Some(run) && shown.1.describes(
            input,
            &(WizardConfig { strategy, tolerance: t }),
            fitted(input, run.raw_choices),
        )
    }
}

/// One solution per tolerance to show: the best found, or the past run where that
/// is no worse.
pub fn solutions_to_show(
    solutions: Vec<(usize, WizardSolution)>,
    runs: &Vec<WizardHistory>,
    input: &WizardInput,
    strategy: Strategy,
) -> (shown: Vec<(usize, WizardSolution)>)
    requires
        input.wf(),
    ensures
        ({
            let best = firsts(solutions@);
            &&& shown@.len() == best.len()
            &&& forall|i: int|
                0 <= i < best.len() ==> shown_for(
                    best[i],
                    views(runs@),
                    input,
                    strategy,
                    #[trigger] shown@[i],
                )
        }),
{
    let ghost whole = solutions@;
    let mut rest = solutions;
    let mut shown: Vec<(usize, WizardSolution)> = Vec::new();
    let ghost mut done: int = 0;
    assert(whole.take(0) =~= Seq::empty());
    assert(whole.skip(0) =~= whole);
    while rest.len() > 0
        invariant
            input.wf(),
            0 <= done <= whole.len(),
            rest@ == whole.skip(done),
            shown@.len() == firsts(whole.take(done)).len(),
            forall|i: int|
                0 <= i < shown@.len() ==> shown_for(
                    firsts(whole.take(done))[i],
                    views(runs@),
                    input,
                    strategy,
                    #[trigger] shown@[i],
                ),
        decreases rest@.len(),
    {
        let ghost best = firsts(whole.take(done));
        let ghost shown0 = shown@;
        let (t, solution) = rest.remove(0);
        proof {
            assert(whole[done] == (t, solution));
            assert(rest@ =~= whole.skip(done + 1));
            let s = whole.take(done + 1);
            assert(s.drop_last() =~= whole.take(done));
            assert(s.last() == whole[done]);
        }
        let mut seen: bool = false;
        let mut k: usize = 0;
        while k < shown.len()
            invariant
                shown@ == shown0,
                shown@.len() == best.len(),
                forall|i: int|
                    0 <= i < shown@.len() ==> shown_for(
                        best[i],
                        views(runs@),
                        input,
                        strategy,
                        #[trigger] shown@[i],
                    ),
                k <= shown@.len(),
                seen == tolerances_of(best).take(k as int).contains(t),
            decreases shown@.len() - k,
        {
            let ghost ts = tolerances_of(best);
            assert(shown@[k as int].0 == ts[k as int]);
            if shown[k].0 == t {
                seen = true;
                assert(ts.take(k + 1)[k as int] == t);
            }
            proof {
                let a = ts.take(k as int);
                let b = ts.take(k + 1);
                if a.contains(t) {
                    let j = choose|j: int| 0 <= j < a.len() && a[j] == t;
                    assert(b[j] == t);
                }
                if b.contains(t) && !a.contains(t) {
                    let j = choose|j: int| 0 <= j < b.len() && b[j] == t;
                    if j < k {
                        assert(a[j] == t);
                    }
                }
            }
            k += 1;
        }
        assert(tolerances_of(best).take(k as int) =~= tolerances_of(best));
        if !seen {
            let entry = match find_run(runs, t) {
                Some(i) if solution.score as u128 >= score_of_history(&runs[i], t, strategy) => {
                    let config = WizardConfig { strategy, tolerance: t };
                    assert(views(runs@)[i as int] == runs@[i as int]@);
                    (t, solution_from_choices(&runs[i].raw_choices, input, &config))
                },
                _ => (t, solution),
            };
            shown.push(entry);
            proof {
                let now = firsts(whole.take(done + 1));
                assert(now == best.push(whole[done]));
                assert forall|i: int| 0 <= i < shown@.len() implies shown_for(
                    now[i],
                    views(runs@),
                    input,
                    strategy,
                    #[trigger] shown@[i],
                ) by {
                    if i < shown0.len() {
                        assert(shown@[i] == shown0[i]);
                        assert(now[i] == best[i]);
                    }
                }
            }
        }
        proof {
            done = done + 1;
        }
    }
    assert(whole.take(done) =~= whole);
    shown
}

/// The solutions for one tolerance, in order.
pub open spec fn solutions_at(solutions: Seq<(usize, WizardSolution)>, t: usize) -> Seq<
    WizardSolution,
>
    decreases solutions.len(),
{
    if solutions.len() == 0 {
        Seq::empty()
    } else {
        let rest = solutions_at(solutions.drop_last(), t);
        if solutions.last().0 == t {
            rest.push(solutions.last().1)
        } else {
            rest
        }
    }
}

/// The solutions for one tolerance, in order.
pub fn take_tolerance(solutions: Vec<(usize, WizardSolution)>, t: usize) -> (found: Vec<
    WizardSolution,
>)
    ensures
        found@ == solutions_at(solutions@, t),
{
    let ghost whole = solutions@;
    let mut rest = solutions;
    let mut found: Vec<WizardSolution> = Vec::new();
    let ghost mut done: int = 0;
    assert(whole.take(0) =~= Seq::empty());
    assert(whole.skip(0) =~= whole);
    while rest.len() > 0
        invariant
            0 <= done <= whole.len(),
            rest@ == whole.skip(done),
            found@ == solutions_at(whole.take(done), t),
        decreases rest@.len(),
    {
        let (u, solution) = rest.remove(0);
        proof {
            assert(whole[done] == (u, solution));
            assert(rest@ =~= whole.skip(done + 1));
            let s = whole.take(done + 1);
            assert(s.drop_last() =~= whole.take(done));
            assert(s.last() == whole[done]);
        }
        if u == t {
            found.push(solution);
        }
        proof {
            done = done + 1;
        }
    }
    assert(whole.take(done) =~= whole);
    found
}

impl Ranked for WizardSolution {
    open spec fn rank(&self) -> int {
        self.score as int
    }

    fn get_rank(&self) -> (r: u64) {
        self.score
    }
}

/// The solutions without those that repeat an earlier one's choices.
pub open spec fn without_repeats(solutions: Seq<WizardSolution>) -> Seq<WizardSolution>
    decreases solutions.len(),
{
    if solutions.len() == 0 {
        Seq::empty()
    } else {
        let rest = without_repeats(solutions.drop_last());
        if exists|i: int|
            0 <= i < rest.len() && #[trigger] rest[i].raw_choices@ == solutions.last().raw_choices@ {
            rest
        } else {
            rest.push(solutions.last())
        }
    }
}

/// The best of two lists of solutions: by score, without repeats, at most three.
pub open spec fn best_of(a: Seq<WizardSolution>, b: Seq<WizardSolution>) -> Seq<WizardSolution> {
    let all = without_repeats(stable_sorted(a + b, by_rank::<WizardSolution>()));
    if all.len() > TOP_N {
        all.take(TOP_N as int)
    } else {
        all
    }
}

/// The best of two lists of solutions: by score, without repeats, at most three.
pub fn best_solutions(a: Vec<WizardSolution>, b: Vec<WizardSolution>) -> (best: Vec<WizardSolution>)
    ensures
        best@ == best_of(a@, b@),
{
    let mut all = a;
    let mut more = b;
    all.append(&mut more);
    let mut rest = sort_by_rank(all);
    let ghost whole = rest@;
    let mut best: Vec<WizardSolution> = Vec::new();
    let ghost mut done: int = 0;
    assert(whole.take(0) =~= Seq::empty());
    assert(whole.skip(0) =~= whole);
    while rest.len() > 0
        invariant
            0 <= done <= whole.len(),
            rest@ == whole.skip(done),
            best@ == without_repeats(whole.take(done)),
        decreases rest@.len(),
    {
        let solution = rest.remove(0);
        proof {
            assert(whole[done] == solution);
            assert(rest@ =~= whole.skip(done + 1));
            let s = whole.take(done + 1);
            assert(s.drop_last() =~= whole.take(done));
            assert(s.last() == whole[done]);
        }
        let mut seen: bool = false;
        let mut k: usize = 0;
        while k < best.len()
            invariant
                k <= best@.len(),
                seen == exists|i: int|
                    0 <= i < k && #[trigger] best@[i].raw_choices@ == solution.raw_choices@,
            decreases best@.len() - k,
        {
            if same_choices(&best[k].raw_choices, &solution.raw_choices) {
                seen = true;
                assert(best@[k as int].raw_choices@ == solution.raw_choices@);
            }
            k += 1;
        }
        if !seen {
            best.push(solution);
        }
        proof {
            done = done + 1;
        }
    }
    assert(whole.take(done) =~= whole);
    if best.len() > TOP_N {
        best.truncate(TOP_N);
    }
    best
}

/// Every solution can be recorded, and its record scores as the solution does.
pub proof fn law_recorded_score(
    solution: WizardSolution,
    input: &WizardInput,
    config: &WizardConfig,
    ch: Seq<Option<usize>>,
)
    requires
        input.wf(),
        valid_choices(input, ch),
        solution.describes(input, config, ch),
    ensures
        recordable(solution),
        past_score(
            past_solution(config.tolerance, &solution),
            config.tolerance,
            config.strategy,
        ) == solution.score,
{
    law_solution_adds_up(solution, input, config, ch);
    let stores = solution.num_stores as int;
    let skips = solution.skipped@.len() as int;
    let t = config.tolerance as int;
    assert(PRICE_WEIGHT == 50000 && STORE_PENALTY == 5000 && SKIP_PENALTY == 500000);
    assert(skips <= input.n_cards());
}

/// A heuristic search that is seeded with the solution for the tolerance below
/// never scores higher than that solution.
pub proof fn law_next_tolerance_no_worse(
    input: &WizardInput,
    config: &WizardConfig,
    next: &WizardConfig,
    seed: Option<Vec<Option<usize>>>,
    first: WizardSolution,
    choices: Vec<Option<usize>>,
    second: WizardSolution,
)
    requires
        input.wf(),
        next.strategy == config.strategy,
        next.tolerance == config.tolerance + 1,
        heuristic_solution(input, config, seed, first),
        choices@ == first.raw_choices@,
        heuristic_solution(input, next, Some(choices), second),
    ensures
        second.score <= first.score,
{
    let ch = first.raw_choices@;
    lemma_fitted_valid(input, ch);
    law_tolerance_lowers_score(input, config, next, ch);
}

/// Dropping repeats keeps the first solution, adds none and keeps the order.
proof fn lemma_without_repeats(s: Seq<WizardSolution>)
    requires
        ascending(s, by_rank::<WizardSolution>()),
    ensures
        s.len() > 0 ==> without_repeats(s).len() > 0 && without_repeats(s)[0] == s[0],
        forall|i: int| 0 <= i < without_repeats(s).len() ==> s.contains(#[trigger] without_repeats(s)[i]),
        ascending(without_repeats(s), by_rank::<WizardSolution>()),
        forall|i: int, j: int|
            0 <= i < j < without_repeats(s).len() ==> (#[trigger] without_repeats(s)[i]).raw_choices@
                != (#[trigger] without_repeats(s)[j]).raw_choices@,
    decreases s.len(),
{
    let key = by_rank::<WizardSolution>();
    if s.len() > 0 {
        let p = s.drop_last();
        let rest = without_repeats(p);
        assert forall|i: int, j: int| 0 <= i <= j < p.len() implies key(#[trigger] p[i]) <= key(
            #[trigger] p[j],
        ) by {
            assert(p[i] == s[i] && p[j] == s[j]);
        }
        lemma_without_repeats(p);
        let all = without_repeats(s);
        assert forall|i: int| 0 <= i < all.len() implies s.contains(#[trigger] all[i]) by {
            if i < rest.len() {
                assert(p.contains(rest[i]));
                let k = choose|k: int| 0 <= k < p.len() && p[k] == rest[i];
                assert(s[k] == all[i]);
            } else {
                assert(s[s.len() - 1] == all[i]);
            }
        }
        assert forall|i: int, j: int| 0 <= i <= j < all.len() implies key(#[trigger] all[i]) <= key(
            #[trigger] all[j],
        ) by {
            if j >= rest.len() && i < rest.len() {
                assert(p.contains(rest[i]));
                let k = choose|k: int| 0 <= k < p.len() && p[k] == rest[i];
                assert(s[k] == all[i]);
                assert(key(s[k]) <= key(s[s.len() - 1]));
            }
        }
    }
}

/// Of two lists of solutions, at most three different ones are returned, lowest
/// score first, and none of the others scores lower than the first.
pub proof fn law_best_of(a: Seq<WizardSolution>, b: Seq<WizardSolution>, i: int, j: int)
    requires
        0 <= i < (a + b).len(),
        0 <= j < best_of(a, b).len(),
    ensures
        best_of(a, b).len() <= TOP_N,
        best_of(a, b)[0].score <= (a + b)[i].score,
        best_of(a, b)[0].score <= best_of(a, b)[j].score,
        j + 1 < best_of(a, b).len() ==> best_of(a, b)[j].score <= best_of(a, b)[j + 1].score
            && best_of(a, b)[j].raw_choices@ != best_of(a, b)[j + 1].raw_choices@,
{
    let key = by_rank::<WizardSolution>();
    let sorted = stable_sorted(a + b, key);
    law_stable_sorted(a + b, key);
    lemma_without_repeats(sorted);
    let best = best_of(a, b);
    let all = without_repeats(sorted);
    let x = (a + b)[i];
    assert((a + b).contains(x));
    assert(sorted.contains(x));
    let k = choose|k: int| 0 <= k < sorted.len() && sorted[k] == x;
    assert(key(sorted[0]) <= key(sorted[k]));
    assert(best[0] == all[0] && best[j] == all[j]);
    assert(key(all[0]) <= key(all[j]));
    if j + 1 < best.len() {
        assert(best[j + 1] == all[j + 1]);
        assert(key(all[j]) <= key(all[j + 1]));
    }
}

} // verus!
