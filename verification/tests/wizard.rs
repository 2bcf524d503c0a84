use cardfetch::cache::{Cache, WizardHistory};
use cardfetch::stores::StoreResult;
use cardfetch::wizard::candidates::{classify, select_candidate_stores};
use cardfetch::wizard::exhaustive::{
    exhaustive_combo_total, k_base_score, optimize_exhaustive, score_store_subset, try_combo_total,
};
use cardfetch::wizard::model::{Strategy, WizardConfig, WizardInput};
use cardfetch::wizard::neighbor::{best_neighbor, hill_climb};
use cardfetch::wizard::optimize::{optimize_input, SearchMode};
use cardfetch::wizard::run::{
    best_solutions, is_improvement, is_recordable, merge_histories, record_run, score_of_history,
    seed_choices, solutions_to_show, take_tolerance, uncached_cards, Ladder,
};
use cardfetch::wizard::score::compute_raw_score;
use cardfetch::wizard::scored::{Assignment, ScoredAssignment};
use cardfetch::wizard::search::{
    initial_assignment, initial_simplest, perturb_consolidate, perturb_with_frac, Annealer,
};
use cardfetch::wizard::solution::{build_solution, solution_from_choices, WizardSolution};
use rand::rngs::StdRng;
use rand::SeedableRng;
use std::sync::atomic::{AtomicU64, Ordering};

fn listing(store: &str, card: &str, price: u32) -> StoreResult {
    StoreResult {
        store_name: store.to_string(),
        card_name: card.to_string(),
        price,
        url: format!("/{store}/{card}"),
    }
}

fn strings(v: &[&str]) -> Vec<String> {
    v.iter().map(|s| s.to_string()).collect()
}

fn rows() -> Vec<StoreResult> {
    vec![
        listing("outland.no", "A", 1000),
        listing("finn.no", "A", 900),
        listing("outland.no", "B", 1000),
        listing("korthaien.no", "B", 100),
    ]
}

fn input() -> WizardInput {
    WizardInput::from_results_and_wants(rows(), &strings(&["A", "B"]), false)
}

fn config(strategy: Strategy, tolerance: usize) -> WizardConfig {
    WizardConfig { strategy, tolerance }
}

/// Every assignment of the input.
fn all_choices(input: &WizardInput) -> Vec<Vec<Option<usize>>> {
    let mut all = vec![Vec::new()];
    for card in &input.cards {
        let mut next = Vec::new();
        for head in &all {
            for i in 0..=card.options.len() {
                let mut row: Vec<Option<usize>> = head.clone();
                row.push(if i == 0 { None } else { Some(i - 1) });
                next.push(row);
            }
        }
        all = next;
    }
    all
}

fn scored(choices: Vec<Option<usize>>, input: &WizardInput, c: &WizardConfig) -> ScoredAssignment {
    ScoredAssignment::new(Assignment { choices }, input, c)
}

fn still(a: &ScoredAssignment, _seed: u64) -> Vec<Option<usize>> {
    a.choices.clone()
}

fn history(tolerance: usize, cost: u64, stores: usize, skipped: usize) -> WizardHistory {
    WizardHistory {
        tolerance,
        num_stores: stores,
        num_skipped: skipped,
        total_cost: cost,
        raw_choices: vec![Some(0), None],
    }
}

#[test]
fn the_input_lists_stores_and_options() {
    let input = input();
    assert_eq!(
        input.store_names,
        strings(&["outland.no", "finn.no", "korthaien.no"])
    );
    assert_eq!(input.cards.len(), 2);
    assert_eq!(input.cards[0].options[0].price, 900);
    assert_eq!(input.cards[0].options[1].price, 1000);
    assert_eq!(input.cheapest_at(0, 1), Some((0, 900)));
    assert_eq!(input.cheapest_at(0, 2), None);
    assert_eq!(input.shipping_bases, vec![5900, 5000, 5500]);
    assert!(input.has_card(1, 2));
}

#[test]
fn blacklisted_sellers_ship_within_the_eu_only() {
    let rows = vec![
        listing("cardmarket-int.com: Itaca", "A", 1250),
        listing("cardmarket-int-private.com: Pat", "A", 1250),
    ];
    let home = WizardInput::from_results_and_wants(rows.clone(), &strings(&["A"]), false);
    assert_eq!(home.store_names, strings(&["cardmarket-int-private.com: Pat"]));
    assert_eq!(home.cards[0].options[0].price, 1250);
    assert_eq!(home.shipping_bases, vec![33750]);
    let abroad = WizardInput::from_results_and_wants(rows, &strings(&["A"]), true);
    assert_eq!(abroad.store_names.len(), 2);
    assert_eq!(abroad.cards[0].options[0].price, 1000);
    assert_eq!(abroad.shipping_bases[1], 3000);
}

#[test]
fn dear_listings_are_taken() {
    let rows = vec![
        listing("outland.no", "A", 4_000_000_000),
        listing("outland.no", "B", 4_000_000_000),
    ];
    let wanted = strings(&["A", "B"]);
    let input = match WizardInput::try_from_results_and_wants(&rows, &wanted, false) {
        Some(input) => input,
        None => panic!("the amounts fit"),
    };
    let c = config(Strategy::Cheapest, 0);
    let sol = build_solution(&scored(vec![Some(0), Some(0)], &input, &c), &input, &c);
    assert_eq!(sol.card_subtotals, vec![8_000_000_000]);
    assert_eq!(sol.total_card_cost, 8_000_000_000);
}

#[test]
fn solutions_list_cards_and_stores_in_order() {
    let rows = vec![
        listing("outland.no", "A", 1000),
        listing("finn.no", "C", 900),
        listing("adamstuen.no", "D", 800),
    ];
    let wanted = strings(&["A", "B", "C", "D"]);
    let input = WizardInput::from_results_and_wants(rows, &wanted, false);
    let c = config(Strategy::Cheapest, 0);
    let n = input.cards.len();
    let choices: Vec<Option<usize>> = input
        .cards
        .iter()
        .map(|card| if card.options.is_empty() { None } else { Some(0) })
        .collect();
    let sol = build_solution(&scored(choices.clone(), &input, &c), &input, &c);
    assert_eq!(sol.assignments.len(), n);
    for (i, card) in input.cards.iter().enumerate() {
        assert_eq!(sol.assignments[i].0, card.name);
        assert_eq!(sol.assignments[i].1.is_none(), sol.raw_choices[i].is_none());
    }
    assert_eq!(
        sol.store_names,
        strings(&["adamstuen.no", "finn.no", "outland.no"])
    );
    assert_eq!(sol.card_subtotals, vec![800, 900, 1000]);
}

#[test]
fn scores_weigh_stores_and_skips() {
    assert_eq!(compute_raw_score(1000, 3, 0, 0, Strategy::Cheapest), 11000);
    assert_eq!(compute_raw_score(1000, 0, 0, 0, Strategy::Cheapest), 1000);
    assert_eq!(compute_raw_score(1000, 3, 0, 0, Strategy::Simplest), 151000);
    assert_eq!(compute_raw_score(0, 0, 3, 1, Strategy::Cheapest), 1000000);
    assert_eq!(k_base_score(3, Strategy::Cheapest), 10000);
    assert_eq!(k_base_score(3, Strategy::Simplest), 150000);
}

#[test]
fn shipping_follows_the_terms() {
    let rows = vec![
        listing("collectible.no", "A", 200000),
        listing("pokeboks.no", "A", 100),
    ];
    let input = WizardInput::from_results_and_wants(rows, &strings(&["A"]), false);
    assert_eq!(input.shipping_cost(0, 199999, 1), 4900);
    assert_eq!(input.shipping_cost(0, 200000, 1), 0);
    assert_eq!(input.shipping_cost(0, 0, 0), 0);
    assert_eq!(input.shipping_cost(1, 59999, 1), 500000);
    assert_eq!(input.shipping_cost(1, 60000, 1), 5000);
}

#[test]
fn moves_change_the_score_as_predicted() {
    let input = input();
    let c = config(Strategy::Cheapest, 1);
    for choices in all_choices(&input) {
        for ci in 0..2 {
            for next in all_choices(&input) {
                let mut a = scored(choices.clone(), &input, &c);
                let before = a.score as i64;
                let delta = a.try_single_move_delta(ci, next[ci], &input, &c);
                a.apply_single_move(ci, next[ci], &input, &c);
                assert_eq!(a.score as i64, before + delta);
                let mut fresh = choices.clone();
                fresh[ci] = next[ci];
                assert_eq!(scored(fresh, &input, &c).score, a.score);
            }
        }
    }
}

#[test]
fn an_exhaustive_search_finds_the_best() {
    let input = input();
    let candidates = select_candidate_stores(&input);
    assert_eq!(candidates.len(), 3);
    for strategy in [Strategy::Cheapest, Strategy::Simplest] {
        for tolerance in 0..2 {
            let c = config(strategy, tolerance);
            let progress = AtomicU64::new(0);
            let found = match optimize_exhaustive(&input, &c, &candidates, &progress) {
                Some(found) => found,
                None => panic!("there are candidates"),
            };
            let mut lowest = u64::MAX;
            for choices in all_choices(&input) {
                if choices.iter().any(|o| o.is_some()) {
                    lowest = lowest.min(scored(choices, &input, &c).score);
                }
            }
            assert_eq!(found[0].score, lowest);
            assert!(found.len() <= 3);
            for pair in found.windows(2) {
                assert!(pair[0].score <= pair[1].score);
                assert_ne!(pair[0].raw_choices, pair[1].raw_choices);
            }
        }
    }
}

#[test]
fn exhaustive_results_with_exact_scores() {
    let input = input();
    let candidates = vec![0, 1, 2];
    let progress = AtomicU64::new(0);
    let c = config(Strategy::Cheapest, 1);
    let found = optimize_exhaustive(&input, &c, &candidates, &progress).unwrap();
    let scores: Vec<u64> = found.iter().map(|s| s.score).collect();
    assert_eq!(scores, vec![5600, 5900, 7900]);
    assert_eq!(found[0].skipped, strings(&["A"]));
    assert!(progress.load(Ordering::Relaxed) > 0);
    assert!(optimize_exhaustive(&input, &c, &Vec::new(), &progress).is_none());
    assert_eq!(
        score_store_subset(&input, &c, &vec![0]),
        (vec![Some(1), Some(1)], 7900)
    );
}

#[test]
fn combinations_are_counted() {
    assert_eq!(exhaustive_combo_total(&vec![0, 1, 2]), 7);
    assert_eq!(exhaustive_combo_total(&vec![0, 1, 2, 3, 4, 5]), 62);
    assert_eq!(exhaustive_combo_total(&Vec::new()), 0);
    assert_eq!(try_combo_total(&vec![0; 100000]), None);
}

#[test]
fn every_card_on_offer_has_a_candidate() {
    let mut rows = rows();
    rows.push(listing("cardmarket-int.com: X", "C", 500));
    rows.push(listing("cardmarket-int-private.com: Y", "D", 500));
    let input = WizardInput::from_results_and_wants(rows, &strings(&["A", "B", "C"]), false);
    let candidates = select_candidate_stores(&input);
    for (i, si) in candidates.iter().enumerate() {
        assert!(!candidates[..i].contains(si));
    }
    for (ci, card) in input.cards.iter().enumerate() {
        let public = card.options.iter().any(|o| {
            !input.store_names[o.store_idx].starts_with("cardmarket-int-private.com")
        });
        if public {
            assert!(candidates.iter().any(|si| input.has_card(ci, *si)));
        }
    }
    assert!(classify("outland.no") == classify("finn.no"));
    assert!(classify("cardmarket.com: A") != classify("outland.no"));
}

/// Stores that ship any order and never for free.
fn paid_input() -> WizardInput {
    let rows = vec![
        listing("finn.no", "A", 900),
        listing("finn.no", "A", 950),
        listing("cardmarket.com: Amy", "A", 500),
        listing("cardmarket.com: Amy", "B", 4000),
        listing("cardmarket.com: Bob", "B", 100),
        listing("cardmarket.com: Bob", "C", 700),
        listing("finn.no", "C", 300),
    ];
    WizardInput::from_results_and_wants(rows, &strings(&["A", "B", "C"]), false)
}

#[test]
fn no_set_of_stores_beats_the_exhaustive_search() {
    let input = paid_input();
    assert!(input.shipping_free_thresholds.iter().all(|v| *v == 0));
    assert!(input.min_orders.iter().all(|v| *v == 0));
    let candidates = select_candidate_stores(&input);
    for strategy in [Strategy::Cheapest, Strategy::Simplest] {
        let c = config(strategy, 0);
        let progress = AtomicU64::new(0);
        let found = optimize_exhaustive(&input, &c, &candidates, &progress).unwrap();
        let mut lowest = u64::MAX;
        for bits in 1..(1u32 << candidates.len()) {
            let subset: Vec<usize> = (0..candidates.len())
                .filter(|i| bits >> i & 1 == 1)
                .map(|i| candidates[i])
                .collect();
            lowest = lowest.min(score_store_subset(&input, &c, &subset).1);
        }
        assert_eq!(found[0].score, lowest);
    }
}

#[test]
fn no_single_move_beats_the_best_neighbor() {
    let input = paid_input();
    for strategy in [Strategy::Cheapest, Strategy::Simplest] {
        let c = config(strategy, 0);
        for choices in all_choices(&input) {
            let current = scored(choices.clone(), &input, &c);
            let bar = match best_neighbor(&current, &input, &c) {
                Some(n) => {
                    assert!(n.score < current.score);
                    n.score
                }
                None => current.score,
            };
            for ci in 0..input.cards.len() {
                for oi in 0..=input.cards[ci].options.len() {
                    let mut moved = choices.clone();
                    moved[ci] = if oi == 0 { None } else { Some(oi - 1) };
                    assert!(scored(moved, &input, &c).score >= bar);
                }
            }
        }
    }
}

#[test]
fn the_first_of_equal_neighbors_is_taken() {
    let rows = vec![
        listing("outland.no", "A", 1000),
        listing("outland.no", "B", 1000),
        listing("outland.no", "C", 1000),
    ];
    let input = WizardInput::from_results_and_wants(rows, &strings(&["A", "B", "C"]), false);
    let c = config(Strategy::Cheapest, 0);
    let start = scored(vec![None, None, None], &input, &c);
    let next = best_neighbor(&start, &input, &c).unwrap();
    assert_eq!(next.choices, vec![Some(0), None, None]);
    let next = best_neighbor(&next, &input, &c).unwrap();
    assert_eq!(next.choices, vec![Some(0), Some(0), None]);
    let again = hill_climb(start, &input, &c);
    assert_eq!(again.choices, vec![Some(0), Some(0), Some(0)]);
    assert_eq!(again.cards_at[0], vec![0, 1, 2]);
}

#[test]
fn a_search_takes_any_tolerance() {
    let input = input();
    let c = config(Strategy::Cheapest, usize::MAX);
    let progress = AtomicU64::new(0);
    let mut rng = StdRng::seed_from_u64(2);
    let seed = vec![Some(0), Some(0)];
    let bound = scored(seed.clone(), &input, &c).score;
    let mode = SearchMode::Heuristic { seed: Some(seed) };
    let found = optimize_input(&input, &c, &mode, &mut rng, &progress, still);
    assert!(found[0].score <= bound);
}

#[test]
fn candidates_keep_the_best_price() {
    let mut rows = Vec::new();
    for i in 0..60u32 {
        rows.push(listing(&format!("shop{i}.no"), "A", 1000 + i));
        rows.push(listing(&format!("cardmarket-int.com: S{i}"), "B", 2000 - i));
    }
    let input = WizardInput::from_results_and_wants(rows, &strings(&["A", "B"]), false);
    let candidates = select_candidate_stores(&input);
    for (ci, card) in input.cards.iter().enumerate() {
        let best = candidates
            .iter()
            .filter_map(|si| input.cheapest_at(ci, *si))
            .map(|(_, price)| price)
            .min();
        assert_eq!(best, Some(card.options[0].price));
    }
}

#[test]
fn a_seeded_search_is_no_worse_than_its_seed() {
    let input = paid_input();
    let c = config(Strategy::Cheapest, 0);
    let progress = AtomicU64::new(0);
    for choices in all_choices(&input).into_iter().step_by(7) {
        let seed = solution_from_choices(&choices, &input, &c);
        let mut rng = StdRng::seed_from_u64(3);
        let mode = SearchMode::Heuristic {
            seed: Some(choices.clone()),
        };
        let found = optimize_input(&input, &c, &mode, &mut rng, &progress, still);
        assert_eq!(found.len(), 1);
        assert!(found[0].score <= seed.score);
    }
}

#[test]
fn a_climb_ends_where_no_neighbor_is_better() {
    let input = input();
    let c = config(Strategy::Cheapest, 0);
    for choices in all_choices(&input) {
        let start = scored(choices, &input, &c);
        let first = start.score;
        let top = hill_climb(start, &input, &c);
        assert!(top.score <= first);
        assert!(best_neighbor(&top, &input, &c).is_none());
    }
}

#[test]
fn greedy_starts_cover_every_card_on_offer() {
    let mut rows = rows();
    rows.push(listing("outland.no", "C", 10));
    let wanted = strings(&["A", "B", "C", "Nowhere"]);
    let input = WizardInput::from_results_and_wants(rows, &wanted, false);
    for seed in 0..4 {
        let start = initial_simplest(&input, seed);
        let other = initial_assignment(&input, seed);
        assert_eq!(start.choices, other.choices);
        assert!(start.choices[0].is_some() && start.choices[1].is_some());
        assert!(start.choices[2].is_some());
        assert_eq!(start.choices[3], None);
    }
    assert_eq!(uncached_cards(&input), strings(&["Nowhere"]));
}

#[test]
fn perturbed_assignments_stay_consistent() {
    let input = input();
    let c = config(Strategy::Cheapest, 2);
    let mut rng = StdRng::seed_from_u64(7);
    for choices in all_choices(&input) {
        let a = scored(choices.clone(), &input, &c);
        for (percent, moved) in [(15u32, 1), (50, 1), (51, 2), (100, 2), (0, 0)] {
            let p = perturb_with_frac(&a, &input, &c, &mut rng, percent);
            let changed = (0..2).filter(|ci| p.choices[*ci] != choices[*ci]).count();
            assert_eq!(changed, moved);
            assert_eq!(scored(p.choices.clone(), &input, &c).score, p.score);
        }
        if let Some(p) = perturb_consolidate(&a, &input, &c, &mut rng) {
            assert_ne!(p.choices, choices);
            assert_eq!(scored(p.choices.clone(), &input, &c).score, p.score);
        }
    }
    let both = scored(vec![Some(1), Some(0)], &input, &c);
    let gathered = match perturb_consolidate(&both, &input, &c, &mut rng) {
        Some(p) => p.choices,
        None => panic!("either store can be emptied"),
    };
    assert!(gathered == vec![Some(0), Some(0)] || gathered == vec![Some(1), Some(1)]);
    let one = scored(vec![Some(1), Some(1)], &input, &c);
    assert!(perturb_consolidate(&one, &input, &c, &mut rng).is_none());
}

#[test]
fn a_walk_returns_the_best_it_met() {
    let input = input();
    let c = config(Strategy::Cheapest, 2);
    let mut rng = StdRng::seed_from_u64(3);
    let start = scored(vec![Some(0), Some(0)], &input, &c);
    let mut walk = Annealer::new(&start, &input, &c);
    let mut lowest = start.score;
    for _ in 0..200 {
        if let Some((ci, new, _)) = walk.propose(&input, &c, &mut rng) {
            walk.take(ci, new, &input, &c);
            lowest = lowest.min(walk.current.score);
        }
    }
    assert_eq!(walk.finish(&input, &c).score, lowest);
    assert_eq!(lowest, 0);
}

#[test]
fn a_heuristic_search_beats_its_starts() {
    let input = input();
    let progress = AtomicU64::new(0);
    for tolerance in 0..3 {
        let c = config(Strategy::Cheapest, tolerance);
        let mut rng = StdRng::seed_from_u64(11);
        let seed = vec![Some(1), None];
        let seeded = scored(seed.clone(), &input, &c).score;
        let mode = SearchMode::Heuristic { seed: Some(seed) };
        let found = optimize_input(&input, &c, &mode, &mut rng, &progress, still);
        assert_eq!(found.len(), 1);
        assert!(found[0].score <= seeded);
        let start = initial_simplest(&input, 0);
        assert!(found[0].score <= scored(start.choices, &input, &c).score);
    }
    let c = config(Strategy::Cheapest, 0);
    let mut rng = StdRng::seed_from_u64(1);
    let mode = SearchMode::Heuristic { seed: None };
    let found = optimize_input(&input, &c, &mode, &mut rng, &progress, still);
    assert_eq!(found[0].score, 7900);
    assert_eq!(found[0].store_names, strings(&["outland.no"]));
}

#[test]
fn a_search_without_candidates_is_heuristic() {
    let input = input();
    let c = config(Strategy::Cheapest, 0);
    let progress = AtomicU64::new(0);
    let mut rng = StdRng::seed_from_u64(1);
    let mode = SearchMode::Exhaustive { candidates: Vec::new() };
    let found = optimize_input(&input, &c, &mode, &mut rng, &progress, still);
    assert_eq!(found.len(), 1);
    let mode = SearchMode::Exhaustive { candidates: vec![0, 1, 2] };
    let found = optimize_input(&input, &c, &mode, &mut rng, &progress, still);
    assert_eq!(found[0].score, 7900);
}

#[test]
fn a_higher_tolerance_never_raises_a_score() {
    let input = input();
    for choices in all_choices(&input) {
        for t in 0..3 {
            let low = scored(choices.clone(), &input, &config(Strategy::Simplest, t)).score;
            let high = scored(choices.clone(), &input, &config(Strategy::Simplest, t + 1)).score;
            assert!(high <= low);
        }
    }
}

#[test]
fn a_search_seeded_from_the_tolerance_below_is_no_worse() {
    let input = input();
    let progress = AtomicU64::new(0);
    for strategy in [Strategy::Cheapest, Strategy::Simplest] {
        let mut rng = StdRng::seed_from_u64(13);
        let mut run = Ladder::new(strategy, None);
        for _ in 0..3 {
            run.step(&input, &Vec::new(), &mut rng, &progress, still);
        }
        for pair in run.solutions.windows(2) {
            assert!(pair[1].1.score <= pair[0].1.score);
        }
    }
}

#[test]
fn solutions_add_up() {
    let input = input();
    let c = config(Strategy::Cheapest, 1);
    for choices in all_choices(&input) {
        let sol = build_solution(&scored(choices.clone(), &input, &c), &input, &c);
        assert_eq!(sol.assignments.len(), 2);
        assert_eq!(sol.raw_choices, choices);
        let cards: u64 = sol.card_subtotals.iter().sum();
        let shipping: u64 = sol.shipping_costs.iter().map(|v| *v as u64).sum();
        assert_eq!((cards, shipping), (sol.total_card_cost, sol.total_shipping));
        assert_eq!(sol.num_stores, sol.store_names.len());
        let score = compute_raw_score(
            cards + shipping,
            sol.num_stores,
            sol.skipped.len(),
            1,
            Strategy::Cheapest,
        );
        assert_eq!(score, sol.score);
        let again = solution_from_choices(&sol.raw_choices, &input, &c);
        assert_eq!(again.raw_choices, sol.raw_choices);
        assert_eq!(again.score, sol.score);
        assert!(is_recordable(&sol));
        let past = WizardHistory {
            tolerance: 1,
            num_stores: sol.num_stores,
            num_skipped: sol.skipped.len(),
            total_cost: cards + shipping,
            raw_choices: sol.raw_choices.clone(),
        };
        assert_eq!(score_of_history(&past, 1, Strategy::Cheapest), sol.score as u128);
    }
}

#[test]
fn stored_choices_are_fitted_to_the_cards() {
    let input = input();
    let c = config(Strategy::Cheapest, 2);
    let sol = solution_from_choices(&vec![Some(99)], &input, &c);
    assert_eq!(sol.raw_choices, vec![None, None]);
    let sol = solution_from_choices(&vec![Some(0), Some(0), Some(0)], &input, &c);
    assert_eq!(sol.raw_choices, vec![Some(0), Some(0)]);
}

#[test]
fn the_cheaper_of_two_past_runs_counts() {
    let mine = vec![history(0, 100, 1, 0), history(1, 50, 1, 0)];
    let other = vec![history(1, 40, 1, 0), history(0, 100, 2, 0), history(2, 9, 1, 0)];
    let merged = merge_histories(mine, other);
    let costs: Vec<(usize, u64, usize)> = merged
        .iter()
        .map(|h| (h.tolerance, h.total_cost, h.num_stores))
        .collect();
    assert_eq!(costs, vec![(0, 100, 1), (1, 40, 1), (2, 9, 1)]);
}

#[test]
fn a_past_run_seeds_the_next_search_where_it_is_better() {
    let input = input();
    let c = config(Strategy::Cheapest, 0);
    let best = solution_from_choices(&vec![Some(1), Some(1)], &input, &c);
    assert_eq!(best.score, 7900);
    let worse = vec![history(0, 7900, 1, 0)];
    let better = vec![history(0, 7899, 1, 0)];
    assert_eq!(
        seed_choices(&worse, 0, Strategy::Cheapest, &best),
        vec![Some(1), Some(1)]
    );
    assert_eq!(
        seed_choices(&better, 0, Strategy::Cheapest, &best),
        vec![Some(0), None]
    );
    assert!(!is_improvement(&worse, 0, Strategy::Cheapest, 7900));
    assert!(is_improvement(&worse, 0, Strategy::Cheapest, 7899));
    assert!(is_improvement(&worse, 1, Strategy::Cheapest, u64::MAX));
    let huge = vec![history(0, u64::MAX, usize::MAX, usize::MAX)];
    assert!(is_improvement(&huge, 0, Strategy::Simplest, u64::MAX));
}

#[test]
fn a_run_climbs_the_tolerances() {
    let input = input();
    let progress = AtomicU64::new(0);
    let mut rng = StdRng::seed_from_u64(5);
    let mut run = Ladder::new(Strategy::Cheapest, None);
    for _ in 0..3 {
        run.step(&input, &Vec::new(), &mut rng, &progress, still);
    }
    assert_eq!(run.next, 3);
    let tolerances: Vec<usize> = run.solutions.iter().map(|s| s.0).collect();
    assert_eq!(tolerances, vec![0, 1, 2]);
    assert_eq!(run.seed, Some(run.solutions[2].1.raw_choices.clone()));
    let mut run = Ladder::new(Strategy::Cheapest, Some(vec![0, 1, 2]));
    run.step(&input, &Vec::new(), &mut rng, &progress, still);
    run.step(&input, &Vec::new(), &mut rng, &progress, still);
    assert_eq!(run.seed, None);
    assert!(run.solutions.len() > 2);
    let at_one = take_tolerance(run.solutions, 1);
    assert_eq!(at_one[0].score, 5600);
}

#[test]
fn runs_are_recorded_and_shown() {
    let input = input();
    let solution = |ch: Vec<Option<usize>>, t: usize| -> (usize, WizardSolution) {
        (t, solution_from_choices(&ch, &input, &config(Strategy::Cheapest, t)))
    };
    let solutions = vec![
        solution(vec![Some(1), Some(1)], 0),
        solution(vec![Some(0), Some(0)], 0),
        solution(vec![Some(0), None], 1),
    ];
    let past = vec![WizardHistory {
        tolerance: 1,
        num_stores: 1,
        num_skipped: 1,
        total_cost: 5600,
        raw_choices: vec![None, Some(0)],
    }];
    let mut cache = Cache::new();
    record_run(&mut cache, &solutions, &past, Strategy::Cheapest, false, true, 9);
    let places: Vec<(usize, usize)> = cache.solutions.iter().map(|r| (r.tolerance, r.rank)).collect();
    assert_eq!(places, vec![(0, 1), (0, 2)]);
    assert_eq!(cache.solutions[0].strategy, "cheapest");
    let shown = solutions_to_show(solutions, &past, &input, Strategy::Cheapest);
    assert_eq!(shown.len(), 2);
    assert_eq!((shown[0].0, shown[0].1.score), (0, 7900));
    assert_eq!((shown[1].0, shown[1].1.score), (1, 5600));
    assert_eq!(shown[1].1.raw_choices, vec![None, Some(0)]);
}

#[test]
fn two_phases_give_at_most_three_solutions() {
    let input = input();
    let c = config(Strategy::Cheapest, 2);
    let of = |ch: Vec<Option<usize>>| solution_from_choices(&ch, &input, &c);
    let first = vec![of(vec![Some(1), Some(1)])];
    let second = vec![
        of(vec![Some(1), Some(1)]),
        of(vec![None, Some(0)]),
        of(vec![Some(0), None]),
        of(vec![Some(0), Some(0)]),
    ];
    let best = best_solutions(first, second);
    let scores: Vec<u64> = best.iter().map(|s| s.score).collect();
    assert_eq!(scores, vec![5600, 5900, 7900]);
}

#[test]
fn strategies_have_names() {
    assert_eq!(Strategy::Simplest.name(), "simplest");
    assert!(Strategy::from_name("cheapest") == Some(Strategy::Cheapest));
    assert!(Strategy::from_name("Cheapest").is_none());
    assert!(Strategy::Cheapest.other() == Strategy::Simplest);
}
