//! What is recorded of solutions, counted of fetches and printed of sellers.

use crate::cache::solutions::{record_of, Past, Record};
use crate::json::choices_json;
use crate::output::{cell, price_text, short_name};
use crate::output::sellers::{card_line, cards_from, cost_from, name_line, others_text, Asked};
use crate::search::part;
use crate::server::results::{endpoint, entry_of, tags_of};
use crate::stores::Listing;
use crate::stores::cardmarket::euros;
use crate::stores::pokeboks::without_mark;
use crate::stores::printed::{lemma_digits_kept, lemma_parse};
use crate::text::{all_digits, decimal, digits_value, is_digit};
use crate::wizard::model::{Strategy, WizardConfig, WizardInput};
use crate::wizard::run::{past_score, rank_of, recorded, tolerances_of};
use crate::wizard::search::{gathers, moved, perturbation, SearchState};
use crate::wizard::solution::WizardSolution;
use vstd::prelude::*;

verus! {

/// A record keeps the counts and costs of its solution: the cards found and skipped
/// make up all cards, the costs of cards and shipping the whole, and the cost per
/// card is the whole by the cards found.
pub proof fn law_recorded_solution(
    strategy: Seq<char>,
    tolerance: usize,
    eu: bool,
    exhaustive: bool,
    rank: usize,
    solution: &WizardSolution,
    now: i64,
)
    requires
        solution.skipped@.len() <= solution.assignments@.len() <= usize::MAX,
        solution.total_card_cost + solution.total_shipping <= u64::MAX,
    ensures
        ({
            let r = record_of(strategy, tolerance, eu, exhaustive, rank, solution, now);
            &&& r.strategy == strategy && r.tolerance == tolerance && r.rank == rank
            &&& r.eu_destination == eu && r.was_exhaustive == exhaustive && r.created_at == now
            &&& r.is_current
            &&& r.num_stores == solution.num_stores
            &&& r.num_skipped == solution.skipped@.len()
            &&& r.num_found + r.num_skipped == solution.assignments@.len()
            &&& r.total_cost == r.total_card_cost + r.total_shipping
            &&& r.total_card_cost == solution.total_card_cost
            &&& r.total_shipping == solution.total_shipping
            &&& r.num_found == 0 ==> r.per_card_cost == 0
            &&& r.num_found > 0 ==> r.num_found * r.per_card_cost <= r.total_cost < r.num_found
                * (r.per_card_cost + 1)
            &&& r.assignments_json == choices_json(solution.raw_choices@)
        }),
{
    let n = solution.assignments@.len() - solution.skipped@.len();
    let t = solution.total_card_cost + solution.total_shipping;
    if n > 0 {
        let q = t / n;
        assert(n * q <= t && t < n * (q + 1) && 0 <= q <= t) by (nonlinear_arith)
            requires
                n > 0,
                t >= 0,
                q == t / n,
        ;
    }
}

/// Choices are written as a JSON list of their numbers, with null for a skip.
pub proof fn law_written_choices(choices: Seq<Option<usize>>, choice: Option<usize>)
    ensures
        choices_json(Seq::empty()) == "["@ + "]"@,
        ({
            let item = match choice {
                Some(oi) => decimal(oi as nat),
                None => "null"@,
            };
            &&& choices_json(seq![choice]) == "["@ + item + "]"@
            &&& choices.len() > 0 ==> choices_json(choices.push(choice)) == choices_json(
                choices,
            ).drop_last() + ","@ + item + "]"@
        }),
{
    reveal_strlit("[");
    reveal_strlit("]");
    let item = match choice {
        Some(oi) => decimal(oi as nat),
        None => "null"@,
    };
    assert("["@ + Seq::<char>::empty() =~= "["@);
    assert(choices.push(choice).drop_last() =~= choices);
    let inner = "["@ + crate::json::choice_items(choices);
    assert((inner + "]"@).drop_last() =~= inner);
    if choices.len() > 0 {
        assert(choices_json(choices.push(choice)) =~= choices_json(choices).drop_last() + ","@
            + item + "]"@);
    }
}

/// A solution is recorded, under its tolerance and rank, exactly where it beats the
/// past run for the tolerance or there is none.
pub proof fn law_better_solutions_are_recorded(
    rows: Seq<Record>,
    solutions: Seq<(usize, WizardSolution)>,
    runs: Seq<Past>,
    strategy: Strategy,
    eu: bool,
    exhaustive: bool,
    now: i64,
    k: int,
    i: int,
)
    requires
        0 < k <= solutions.len(),
        0 <= i < runs.len(),
        runs[i].tolerance == solutions[k - 1].0,
        forall|j: int| 0 <= j < i ==> (#[trigger] runs[j]).tolerance != solutions[k - 1].0,
    ensures
        recorded(rows, solutions, runs, strategy, eu, exhaustive, now, 0) == rows,
        ({
            let t = solutions[k - 1].0;
            let sol = solutions[k - 1].1;
            let before = recorded(rows, solutions, runs, strategy, eu, exhaustive, now, k - 1);
            let after = recorded(rows, solutions, runs, strategy, eu, exhaustive, now, k);
            &&& sol.score >= past_score(runs[i], t, strategy) ==> after == before
            &&& sol.score < past_score(runs[i], t, strategy) ==> after.len() > 0 && after.last()
                == record_of(
                match strategy {
                    Strategy::Simplest => "simplest"@,
                    Strategy::Cheapest => "cheapest"@,
                },
                t,
                eu,
                exhaustive,
                rank_of(tolerances_of(solutions), k - 1) as usize,
                &sol,
                now,
            )
        }),
{
    crate::laws::runs::law_improves(
        runs,
        solutions[k - 1].0,
        strategy,
        solutions[k - 1].1.score,
        i,
    );
}

/// A count is told where it is not zero.
pub proof fn law_told_counts(count: u32, label: Seq<char>)
    ensures
        count == 0 ==> part(count, label).len() == 0,
        count > 0 ==> part(count, label) == ", "@ + decimal(count as nat) + label,
{
}

/// Each result is tagged with its card, and with its endpoint.
pub proof fn law_tagged_results(found: Seq<Listing>, i: int)
    requires
        0 <= i < found.len(),
    ensures
        tags_of(found).len() == found.len(),
        tags_of(found)[i].card == found[i].card,
        tags_of(found)[i].key == endpoint(found[i].store),
        tags_of(found)[i].entry == entry_of(found[i]),
{
}

/// A line of a seller's block names the card and links its price; the block's first
/// line counts the cards.
pub proof fn law_printed_lines(lines: Seq<Asked>, width: int, i: int, seller: Seq<char>, n: nat)
    requires
        0 <= i < lines.len(),
    ensures
        card_line(lines, width)(i) == "    "@ + cell(lines[i].card, lines[i].card, width) + "  "@ + (
        "\x1b]8;;"@ + lines[i].url + "\x1b\\"@ + price_text(lines[i].price as nat)
            + "\x1b]8;;\x1b\\"@) + "\n"@,
        n == 1 ==> name_line(seller, n) == "  "@ + short_name(seller) + " ("@ + decimal(n)
            + " card):\n"@,
        n != 1 ==> name_line(seller, n) == "  "@ + short_name(seller) + " ("@ + decimal(n)
            + " cards):\n"@,
{
    reveal_strlit("");
    reveal_strlit("s");
    reveal_strlit(" card");
    reveal_strlit("):\n");
    reveal_strlit(" card):\n");
    reveal_strlit(" cards):\n");
    assert(" card"@ + ""@ + "):\n"@ =~= " card):\n"@);
    assert(" card"@ + "s"@ + "):\n"@ =~= " cards):\n"@);
    let front = "  "@ + short_name(seller) + " ("@ + decimal(n);
    assert(name_line(seller, 1) =~= "  "@ + short_name(seller) + " ("@ + decimal(1) + (" card"@
        + ""@ + "):\n"@));
    if n != 1 {
        assert(name_line(seller, n) =~= front + (" card"@ + "s"@ + "):\n"@));
    }
}

/// The sellers that are not shown are counted, with their cards and what those
/// cost; nothing is said where all are shown.
pub proof fn law_printed_others(
    cards: Seq<Seq<char>>,
    rs: Seq<Listing>,
    sellers: Seq<Seq<char>>,
    visible: nat,
)
    ensures
        sellers.len() <= visible ==> others_text(cards, rs, sellers, visible).len() == 0,
        sellers.len() > visible ==> {
            let text = others_text(cards, rs, sellers, visible);
            let hidden = (sellers.len() - visible) as nat;
            let what = decimal(cards_from(cards, rs, sellers, visible)) + " cards, "@ + price_text(
                cost_from(cards, rs, sellers, visible),
            ) + " total)\n"@;
            &&& hidden == 1 ==> text == "\n  ... and "@ + decimal(hidden) + " more seller"@ + ""@
                + " ("@ + what
            &&& hidden > 1 ==> text == "\n  ... and "@ + decimal(hidden) + " more seller"@ + "s"@
                + " ("@ + what
        },
{
    if sellers.len() > visible {
        let hidden = (sellers.len() - visible) as nat;
        let what = decimal(cards_from(cards, rs, sellers, visible)) + " cards, "@ + price_text(
            cost_from(cards, rs, sellers, visible),
        ) + " total)\n"@;
        let text = others_text(cards, rs, sellers, visible);
        if hidden == 1 {
            assert(text =~= "\n  ... and "@ + decimal(hidden) + " more seller"@ + ""@ + " ("@
                + what);
        } else {
            assert(text =~= "\n  ... and "@ + decimal(hidden) + " more seller"@ + "s"@ + " ("@
                + what);
        }
    }
}

/// Whole euros are read whatever separates the thousands, and as none where there
/// are no digits.
pub proof fn law_whole_euros(whole: Seq<char>)
    requires
        digits_value(whole.filter(|c: char| is_digit(c))) <= u32::MAX,
    ensures
        whole.filter(|c: char| is_digit(c)).len() == 0 ==> euros(whole) == Some(0u32),
        whole.filter(|c: char| is_digit(c)).len() > 0 ==> euros(whole) == Some(
            digits_value(whole.filter(|c: char| is_digit(c))) as u32,
        ),
        all_digits(whole) && whole.len() > 0 ==> euros(whole) == Some(digits_value(whole) as u32),
{
    lemma_digits_kept(whole);
    let digits = whole.filter(|c: char| is_digit(c));
    if digits.len() > 0 {
        lemma_parse(digits);
    }
}

/// A byte order mark in front of a page is left out, and nothing else.
pub proof fn law_byte_order_mark(page: Seq<char>)
    ensures
        without_mark(seq!['\u{feff}'] + page) == page,
        page.len() == 0 || page[0] != '\u{feff}' ==> without_mark(page) == page,
{
    assert((seq!['\u{feff}'] + page).skip(1) =~= page);
}

/// A round that scatters cards picks half of them at tolerance 0, two fifths at
/// tolerance 1 and three tenths above, rounded up, and changes no others.
pub proof fn law_scattered_cards(
    input: &WizardInput,
    config: &WizardConfig,
    s: SearchState,
    p: Seq<Option<usize>>,
)
    requires
        perturbation(input, config, s, p),
        !gathers(config, s),
    ensures
        exists|picks: Seq<usize>| #[trigger]
            moved(input, s.best, p, picks) && picks.len() <= input.cards@.len() && (
            config.tolerance == 0 ==> input.cards@.len() <= 2 * picks.len() < input.cards@.len()
                + 2) && (config.tolerance == 1 ==> 2 * input.cards@.len() <= 5 * picks.len() < 2
                * input.cards@.len() + 5) && (config.tolerance >= 2 ==> 3 * input.cards@.len() <= 10
                * picks.len() < 3 * input.cards@.len() + 10),
{
    let picks = choose|picks: Seq<usize>| #[trigger]
        moved(input, s.best, p, picks) && picks.len() == crate::wizard::search::perturb_size(
            input.n_cards() as int,
            crate::wizard::search::perturb_percent(config.tolerance as int),
        );
    crate::laws::search::law_share_of_moved_cards(
        input.n_cards() as int,
        config.tolerance as int,
    );
    assert(moved(input, s.best, p, picks));
}

} // verus!
