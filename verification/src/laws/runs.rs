//! What a solution tells, and which runs are gone on from and kept.

use crate::cache::solutions::Past;
use crate::text::texts;
use crate::wizard::model::{Strategy, WizardCard, WizardConfig, WizardInput};
use crate::wizard::run::{
    bare_cards, best_of, firsts, improves, law_best_of, next_seed, past_score, rank_of, run_at,
    run_for, shown_for, solutions_at, tolerances_of, with_run, with_runs, without_repeats,
};
use crate::wizard::score::valid_choices;
use crate::wizard::scored::fitted;
use crate::wizard::solution::{line_view, lines, skipped_names, WizardSolution};
use vstd::prelude::*;

verus! {

/// A solution has a line for every card: its name, and where it is bought the name
/// of the store, the price and the link of the chosen listing.
pub proof fn law_solution_lines(
    solution: WizardSolution,
    input: &WizardInput,
    config: &WizardConfig,
    ch: Seq<Option<usize>>,
    ci: int,
)
    requires
        input.wf(),
        valid_choices(input, ch),
        solution.describes(input, config, ch),
        0 <= ci < ch.len(),
    ensures
        solution.raw_choices@[ci] == ch[ci],
        line_view(solution.assignments@[ci]).0 == input.cards@[ci].name@,
        ch[ci] is None ==> line_view(solution.assignments@[ci]).1 is None,
        ch[ci] matches Some(oi) ==> {
            let opt = input.cards@[ci].options@[oi as int];
            line_view(solution.assignments@[ci]).1 == Some(
                (input.store_names@[opt.store_idx as int]@, opt.price, opt.url@),
            )
        },
{
    let all = lines(solution.assignments@);
    assert(all.len() == solution.assignments@.len());
    assert(all[ci] == line_view(solution.assignments@[ci]));
}

proof fn lemma_skipped_names(input: &WizardInput, ch: Seq<Option<usize>>, k: int)
    requires
        0 <= k <= ch.len(),
    ensures
        skipped_names(input, ch, k) == Seq::new(k as nat, |ci: int| ci).filter(
            |ci: int| ch[ci] is None,
        ).map_values(|ci: int| input.cards@[ci].name@),
    decreases k,
{
    reveal(Seq::filter);
    let all = Seq::new(k as nat, |ci: int| ci);
    let q = |ci: int| ch[ci] is None;
    let f = |ci: int| input.cards@[ci].name@;
    if k > 0 {
        lemma_skipped_names(input, ch, k - 1);
        assert(all.drop_last() =~= Seq::new((k - 1) as nat, |ci: int| ci));
        let rest = all.drop_last().filter(q);
        assert(rest.push(k - 1).map_values(f) =~= rest.map_values(f).push(f(k - 1)));
    } else {
        assert(all.filter(q).map_values(f) =~= Seq::empty());
    }
}

/// The skipped cards of a solution are named in the order of the cards.
pub proof fn law_solution_names_the_skipped(
    solution: WizardSolution,
    input: &WizardInput,
    config: &WizardConfig,
    ch: Seq<Option<usize>>,
)
    requires
        solution.describes(input, config, ch),
    ensures
        texts(solution.skipped@) == Seq::new(ch.len(), |ci: int| ci).filter(
            |ci: int| ch[ci] is None,
        ).map_values(|ci: int| input.cards@[ci].name@),
{
    lemma_skipped_names(input, ch, ch.len() as int);
}

/// The past run for a tolerance is the first of that tolerance.
pub proof fn law_run_of_a_tolerance(runs: Seq<Past>, t: usize)
    ensures
        run_at(runs, t) matches Some(i) ==> 0 <= i < runs.len() && runs[i].tolerance == t && (
        forall|k: int| 0 <= k < i ==> (#[trigger] runs[k]).tolerance != t) && run_for(runs, t)
            == Some(runs[i]),
        run_at(runs, t) is None ==> run_for(runs, t) is None && forall|k: int|
            0 <= k < runs.len() ==> (#[trigger] runs[k]).tolerance != t,
    decreases runs.len(),
{
    if runs.len() > 0 {
        let init = runs.drop_last();
        law_run_of_a_tolerance(init, t);
        assert forall|k: int| 0 <= k < runs.len() - 1 implies (#[trigger] runs[k]) == init[k] by {}
        if run_at(runs, t) is None {
            assert forall|k: int| 0 <= k < runs.len() implies (#[trigger] runs[k]).tolerance
                != t by {
                if k < init.len() {
                    assert(init[k].tolerance != t);
                }
            }
        } else {
            let i = run_at(runs, t)->0;
            assert forall|k: int| 0 <= k < i implies (#[trigger] runs[k]).tolerance != t by {
                assert(init[k].tolerance != t);
            }
        }
    }
}

/// A past run scores its money and its stores, and 5000 kr for every skip beyond
/// the tolerance.
pub proof fn law_past_score(run: Past, t: usize)
    ensures
        run.num_skipped <= t && run.num_stores <= 1 ==> past_score(run, t, Strategy::Cheapest)
            == run.total_cost,
        run.num_skipped == t + 1 && run.num_stores <= 1 ==> past_score(run, t, Strategy::Cheapest)
            == run.total_cost + 500000,
        run.num_skipped <= t && run.num_stores == 1 ==> past_score(run, t, Strategy::Simplest)
            == run.total_cost + 50000,
{
}

/// The search goes on from whichever scores lower, the best found or the past run
/// for the tolerance, and from the best found where they are level.
pub proof fn law_next_seed_is_the_better(
    runs: Seq<Past>,
    t: usize,
    strategy: Strategy,
    best: WizardSolution,
    i: int,
)
    requires
        0 <= i < runs.len(),
        runs[i].tolerance == t,
        forall|k: int| 0 <= k < i ==> (#[trigger] runs[k]).tolerance != t,
    ensures
        past_score(runs[i], t, strategy) < best.score ==> next_seed(runs, t, strategy, best)
            == runs[i].raw_choices,
        past_score(runs[i], t, strategy) >= best.score ==> next_seed(runs, t, strategy, best)
            == best.raw_choices@,
{
    law_run_of_a_tolerance(runs, t);
}

/// Without a past run for the tolerance, the search goes on from the best found,
/// and any solution is an improvement.
pub proof fn law_no_past_run(
    runs: Seq<Past>,
    t: usize,
    strategy: Strategy,
    best: WizardSolution,
    score: u64,
)
    requires
        forall|k: int| 0 <= k < runs.len() ==> (#[trigger] runs[k]).tolerance != t,
    ensures
        next_seed(runs, t, strategy, best) == best.raw_choices@,
        improves(runs, t, strategy, score),
{
    law_run_of_a_tolerance(runs, t);
}

/// Only a lower score improves on the past run for a tolerance.
pub proof fn law_improves(runs: Seq<Past>, t: usize, strategy: Strategy, score: u64, i: int)
    requires
        0 <= i < runs.len(),
        runs[i].tolerance == t,
        forall|k: int| 0 <= k < i ==> (#[trigger] runs[k]).tolerance != t,
    ensures
        improves(runs, t, strategy, score) <==> score < past_score(runs[i], t, strategy),
{
    law_run_of_a_tolerance(runs, t);
}

/// Joining a run to others keeps one run per tolerance, the cheaper, the earlier
/// where both cost the same, and leaves the other tolerances as they were.
pub proof fn law_joined_runs(runs: Seq<Past>, new: Past, t: usize)
    requires
        forall|a: int, b: int|
            0 <= a < b < runs.len() ==> (#[trigger] runs[a]).tolerance != (
            #[trigger] runs[b]).tolerance,
    ensures
        ({
            let all = with_run(runs, new);
            &&& forall|a: int, b: int|
                0 <= a < b < all.len() ==> (#[trigger] all[a]).tolerance != (
                #[trigger] all[b]).tolerance
            &&& t != new.tolerance ==> run_for(all, t) == run_for(runs, t)
            &&& run_for(all, new.tolerance) matches Some(r) && (r == new || run_for(
                runs,
                new.tolerance,
            ) == Some(r)) && r.total_cost <= new.total_cost
            &&& run_for(runs, new.tolerance) matches Some(old_run) ==> {
                &&& old_run.total_cost <= new.total_cost ==> all == runs
                &&& old_run.total_cost > new.total_cost ==> run_for(all, new.tolerance) == Some(new)
            }
        }),
{
    let all = with_run(runs, new);
    law_run_of_a_tolerance(runs, t);
    law_run_of_a_tolerance(all, t);
    law_run_of_a_tolerance(runs, new.tolerance);
    law_run_of_a_tolerance(all, new.tolerance);
    match run_at(runs, new.tolerance) {
        Some(i) => {
            assert(all.len() == runs.len());
            assert(all[i].tolerance == new.tolerance);
            assert(run_at(all, new.tolerance) is Some);
            let j = run_at(all, new.tolerance)->0;
            assert(j == i);
            assert(all[j] == new || all == runs);
            if t != new.tolerance {
                if let Some(k) = run_at(runs, t) {
                    assert(all[k] == runs[k]);
                    assert(run_at(all, t) is Some);
                    let l = run_at(all, t)->0;
                    assert(runs[l].tolerance == t);
                } else if let Some(l) = run_at(all, t) {
                    assert(runs[l].tolerance == t);
                }
            }
        },
        None => {
            assert(all.drop_last() =~= runs);
            assert(all.last() == new);
        },
    }
}

/// The cards without a listing are named in order.
pub proof fn law_cards_without_a_listing(cards: Seq<WizardCard>)
    ensures
        bare_cards(cards) == cards.filter(|c: WizardCard| c.options@.len() == 0).map_values(
            |c: WizardCard| c.name@,
        ),
    decreases cards.len(),
{
    reveal(Seq::filter);
    let q = |c: WizardCard| c.options@.len() == 0;
    let f = |c: WizardCard| c.name@;
    if cards.len() > 0 {
        let init = cards.drop_last();
        law_cards_without_a_listing(init);
        let rest = init.filter(q);
        assert(rest.push(cards.last()).map_values(f) =~= rest.map_values(f).push(f(cards.last())));
    } else {
        assert(cards.filter(q).map_values(f) =~= Seq::empty());
    }
}

/// The first solution of a tolerance has rank 1, and each further one the next.
pub proof fn law_ranks(tolerances: Seq<usize>, i: int, j: int)
    requires
        0 <= i < j < tolerances.len(),
        tolerances[i] == tolerances[j],
        forall|k: int| i < k < j ==> #[trigger] tolerances[k] != tolerances[i],
    ensures
        rank_of(tolerances, i) >= 1,
        rank_of(tolerances, j) == rank_of(tolerances, i) + 1,
{
    let t = tolerances[i];
    let q = |x: usize| x == t;
    reveal(Seq::filter);
    assert(tolerances.take(i + 1).last() == t);
    assert(tolerances.take(i + 1).filter(q).len() >= 1);
    lemma_ranks_between(tolerances, t, i, j - 1);
    assert(tolerances.take(j + 1).drop_last() =~= tolerances.take(j));
    assert(tolerances.take(j + 1).last() == t);
    assert((|x: usize| x == tolerances[i]) =~= q);
    assert((|x: usize| x == tolerances[j]) =~= q);
}

proof fn lemma_ranks_between(tolerances: Seq<usize>, t: usize, i: int, k: int)
    requires
        0 <= i <= k < tolerances.len(),
        forall|l: int| i < l <= k ==> #[trigger] tolerances[l] != t,
    ensures
        tolerances.take(k + 1).filter(|x: usize| x == t).len() == tolerances.take(i + 1).filter(
            |x: usize| x == t,
        ).len(),
    decreases k - i,
{
    reveal(Seq::filter);
    if k > i {
        lemma_ranks_between(tolerances, t, i, k - 1);
        assert(tolerances.take(k + 1).drop_last() =~= tolerances.take(k));
        assert(tolerances.take(k + 1).last() == tolerances[k]);
    }
}

/// Runs are joined one after the other.
pub proof fn law_runs_join_in_order(runs: Seq<Past>, more: Seq<Past>, new: Past)
    ensures
        with_runs(runs, Seq::empty()) == runs,
        with_runs(runs, more.push(new)) == with_run(with_runs(runs, more), new),
{
    assert(more.push(new).drop_last() =~= more);
}

/// The solutions for a tolerance are all of those, in order.
pub proof fn law_solutions_of_a_tolerance(solutions: Seq<(usize, WizardSolution)>, t: usize)
    ensures
        solutions_at(solutions, t) == solutions.filter(
            |s: (usize, WizardSolution)| s.0 == t,
        ).map_values(|s: (usize, WizardSolution)| s.1),
    decreases solutions.len(),
{
    reveal(Seq::filter);
    let q = |s: (usize, WizardSolution)| s.0 == t;
    let f = |s: (usize, WizardSolution)| s.1;
    if solutions.len() > 0 {
        let init = solutions.drop_last();
        law_solutions_of_a_tolerance(init, t);
        let rest = init.filter(q);
        assert(rest.push(solutions.last()).map_values(f) =~= rest.map_values(f).push(
            f(solutions.last()),
        ));
    } else {
        assert(solutions.filter(q).map_values(f) =~= Seq::empty());
    }
}

/// Each tolerance with a solution is shown once, with its first solution.
pub proof fn law_first_of_each_tolerance(solutions: Seq<(usize, WizardSolution)>, i: int)
    requires
        0 <= i < solutions.len(),
        forall|k: int| 0 <= k < i ==> (#[trigger] solutions[k]).0 != solutions[i].0,
    ensures
        firsts(solutions).contains(solutions[i]),
        forall|a: int, b: int|
            0 <= a < b < firsts(solutions).len() ==> (#[trigger] firsts(solutions)[a]).0 != (
            #[trigger] firsts(solutions)[b]).0,
{
    lemma_firsts(solutions, i);
    lemma_firsts_differ(solutions);
}

proof fn lemma_firsts_differ(solutions: Seq<(usize, WizardSolution)>)
    ensures
        forall|a: int, b: int|
            0 <= a < b < firsts(solutions).len() ==> (#[trigger] firsts(solutions)[a]).0 != (
            #[trigger] firsts(solutions)[b]).0,
        forall|a: int|
            0 <= a < firsts(solutions).len() ==> solutions.contains(
                #[trigger] firsts(solutions)[a],
            ),
    decreases solutions.len(),
{
    if solutions.len() > 0 {
        let init = solutions.drop_last();
        lemma_firsts_differ(init);
        let rest = firsts(init);
        let all = firsts(solutions);
        assert forall|a: int, b: int| 0 <= a < b < all.len() implies (#[trigger] all[a]).0 != (
        #[trigger] all[b]).0 by {
            if b == rest.len() {
                assert(tolerances_of(rest)[a] == rest[a].0);
                assert(tolerances_of(rest).contains(rest[a].0));
            }
        }
        assert forall|a: int| 0 <= a < all.len() implies solutions.contains(
            #[trigger] all[a],
        ) by {
            if a < rest.len() {
                assert(init.contains(rest[a]));
                let k = choose|k: int| 0 <= k < init.len() && init[k] == rest[a];
                assert(solutions[k] == all[a]);
            } else {
                assert(solutions[solutions.len() - 1] == all[a]);
            }
        }
    }
}

proof fn lemma_firsts(solutions: Seq<(usize, WizardSolution)>, i: int)
    requires
        0 <= i < solutions.len(),
        forall|k: int| 0 <= k < i ==> (#[trigger] solutions[k]).0 != solutions[i].0,
    ensures
        firsts(solutions).contains(solutions[i]),
    decreases solutions.len(),
{
    let init = solutions.drop_last();
    let rest = firsts(init);
    let all = firsts(solutions);
    if i < init.len() {
        assert forall|k: int| 0 <= k < i implies (#[trigger] init[k]).0 != init[i].0 by {
            assert(solutions[k].0 != solutions[i].0);
        }
        lemma_firsts(init, i);
        let k = choose|k: int| 0 <= k < rest.len() && rest[k] == init[i];
        assert(all[k] == solutions[i]);
    } else {
        lemma_firsts_differ(init);
        if tolerances_of(rest).contains(solutions[i].0) {
            let a = choose|a: int|
                0 <= a < tolerances_of(rest).len() && tolerances_of(rest)[a] == solutions[i].0;
            assert(init.contains(rest[a]));
            let k = choose|k: int| 0 <= k < init.len() && init[k] == rest[a];
            assert(solutions[k].0 == solutions[i].0);
        }
        assert(all[rest.len() as int] == solutions[i]);
    }
}

/// What is shown for a tolerance is the solution found where it beats the past run
/// or there is none, and else the past run's choices.
pub proof fn law_shown_solutions(
    found: (usize, WizardSolution),
    runs: Seq<Past>,
    input: &WizardInput,
    strategy: Strategy,
    shown: (usize, WizardSolution),
    i: int,
)
    requires
        shown_for(found, runs, input, strategy, shown),
        0 <= i < runs.len(),
        runs[i].tolerance == found.0,
        forall|k: int| 0 <= k < i ==> (#[trigger] runs[k]).tolerance != found.0,
    ensures
        shown.0 == found.0,
        found.1.score < past_score(runs[i], found.0, strategy) ==> shown.1 == found.1,
        found.1.score >= past_score(runs[i], found.0, strategy) ==> shown.1.raw_choices@ == fitted(
            input,
            runs[i].raw_choices,
        ),
{
    law_run_of_a_tolerance(runs, found.0);
}

/// Of two lists, at most three solutions are returned, the lower scores first, and
/// none scores lower than the first.
pub proof fn law_three_best(a: Seq<WizardSolution>, b: Seq<WizardSolution>, i: int, j: int)
    requires
        0 <= i < (a + b).len(),
        0 <= j < best_of(a, b).len(),
    ensures
        best_of(a, b).len() <= 3,
        best_of(a, b)[0].score <= (a + b)[i].score,
        j + 1 < best_of(a, b).len() ==> best_of(a, b)[j].score <= best_of(a, b)[j + 1].score,
{
    law_best_of(a, b, i, j);
}

/// A solution is left out exactly where one with the same choices is kept already.
pub proof fn law_repeats_are_left_out(solutions: Seq<WizardSolution>, next: WizardSolution, i: int)
    ensures
        ({
            let kept = without_repeats(solutions);
            let all = without_repeats(solutions.push(next));
            &&& 0 <= i < kept.len() && kept[i].raw_choices@ == next.raw_choices@ ==> all == kept
            &&& (forall|k: int|
                0 <= k < kept.len() ==> (#[trigger] kept[k]).raw_choices@ != next.raw_choices@)
                ==> all == kept.push(next)
        }),
{
    assert(solutions.push(next).drop_last() =~= solutions);
    let kept = without_repeats(solutions);
    if 0 <= i < kept.len() && kept[i].raw_choices@ == next.raw_choices@ {
        assert(kept[i].raw_choices@ == solutions.push(next).last().raw_choices@);
    }
}

} // verus!
