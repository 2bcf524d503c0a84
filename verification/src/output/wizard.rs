//! The wizard's solutions as text.

use crate::output::sellers::{card_line, name_line, push_lines, push_name_line, Asked, SellerLine};
use crate::output::stores::{widest, widest_of};
use crate::output::{
    format_price_u64, pieces, plural, plural_of, price_text, push_repeated,
    push_right, repeated, right_aligned,
};
use crate::rows::{lemma_views_push, views};
use crate::text::{decimal, decimal_text, joined, same_text, texts};
use crate::wizard::solution::{line_view, lines, CardLine, WizardSolution};
use vstd::prelude::*;

verus! {

/// A strategy's name for headings.
pub open spec fn strategy_label(strategy: Seq<char>) -> Seq<char> {
    if strategy == "simplest"@ {
        "Simplest"@
    } else if strategy == "cheapest"@ {
        "Cheapest"@
    } else {
        strategy
    }
}

fn label_of(strategy: &str) -> (label: String)
    ensures
        label@ == strategy_label(strategy@),
{
    if same_text(strategy, "simplest") {
        "Simplest".to_owned()
    } else if same_text(strategy, "cheapest") {
        "Cheapest".to_owned()
    } else {
        strategy.to_owned()
    }
}

/// What a solution costs.
pub open spec fn grand_total(sol: WizardSolution) -> nat {
    (sol.total_card_cost + sol.total_shipping) as nat
}

/// The columns of the summary.
pub open spec fn summary_line(
    tolerance: Seq<char>,
    stores: Seq<char>,
    found: Seq<char>,
    skipped: Seq<char>,
    cards: Seq<char>,
    shipping: Seq<char>,
    total: Seq<char>,
    average: Seq<char>,
) -> Seq<char> {
    "  "@ + right_aligned(tolerance, 9) + "  "@ + right_aligned(stores, 6) + "  "@ + right_aligned(
        found,
        5,
    ) + "  "@ + right_aligned(skipped, 6) + "  "@ + right_aligned(cards, 9) + "  "@ + right_aligned(
        shipping,
        8,
    ) + "  "@ + right_aligned(total, 10) + "  "@ + right_aligned(average, 9) + "\n"@
}

fn summary_line_of(
    tolerance: &str,
    stores: &str,
    found: &str,
    skipped: &str,
    cards: &str,
    shipping: &str,
    total: &str,
    average: &str,
) -> (line: String)
    ensures
        line@ == summary_line(
            tolerance@,
            stores@,
            found@,
            skipped@,
            cards@,
            shipping@,
            total@,
            average@,
        ),
{
    let mut line = "  ".to_owned();
    push_right(&mut line, tolerance, 9);
    line.append("  ");
    push_right(&mut line, stores, 6);
    line.append("  ");
    push_right(&mut line, found, 5);
    line.append("  ");
    push_right(&mut line, skipped, 6);
    line.append("  ");
    push_right(&mut line, cards, 9);
    line.append("  ");
    push_right(&mut line, shipping, 8);
    line.append("  ");
    push_right(&mut line, total, 10);
    line.append("  ");
    push_right(&mut line, average, 9);
    line.append("\n");
    line
}

/// A solution's line in the summary.
pub open spec fn solution_line(t: usize, sol: WizardSolution, wanted: nat) -> Seq<char> {
    let found = (wanted - sol.skipped@.len()) as nat;
    let average = if found > 0 {
        grand_total(sol) / found
    } else {
        0
    };
    summary_line(
        decimal(t as nat),
        decimal(sol.num_stores as nat),
        decimal(found) + "/"@ + decimal(wanted),
        decimal(sol.skipped@.len()),
        price_text(sol.total_card_cost as nat),
        price_text(sol.total_shipping as nat),
        price_text(grand_total(sol)),
        price_text(average),
    )
}

pub open spec fn solution_lines(solutions: Seq<(usize, WizardSolution)>, wanted: nat) -> spec_fn(
    int,
) -> Seq<char> {
    |i: int| solution_line(solutions[i].0, solutions[i].1, wanted)
}

fn solution_line_of(t: usize, sol: &WizardSolution, wanted: usize) -> (line: String)
    requires
        sol.skipped@.len() <= wanted,
        sol.total_card_cost + sol.total_shipping <= u64::MAX,
    ensures
        line@ == solution_line(t, *sol, wanted as nat),
{
    let found: usize = wanted - sol.skipped.len();
    let grand: u64 = sol.total_card_cost + sol.total_shipping;
    let average: u64 = if found > 0 {
        grand / found as u64
    } else {
        0
    };
    let ratio = joined(&joined(&decimal_text(found as u64), "/"), &decimal_text(wanted as u64));
    summary_line_of(
        &decimal_text(t as u64),
        &decimal_text(sol.num_stores as u64),
        &ratio,
        &decimal_text(sol.skipped.len() as u64),
        &format_price_u64(sol.total_card_cost),
        &format_price_u64(sol.total_shipping),
        &format_price_u64(grand),
        &format_price_u64(average),
    )
}

/// The heading of the summary.
pub open spec fn summary_heading(strategy: Seq<char>, wanted: nat, sellers: nat) -> Seq<char> {
    "\n"@ + repeated('\u{2550}', 60) + "\n"@ + "  Purchase Wizard \u{2014} "@ + strategy_label(
        strategy,
    ) + " Strategy\n  "@ + decimal(wanted) + " wanted cards, "@ + decimal(sellers)
        + " cached sellers\n"@ + repeated('\u{2550}', 60) + "\n\n"@
}

fn heading_of(strategy: &str, wanted: usize, sellers: usize) -> (text: String)
    ensures
        text@ == summary_heading(strategy@, wanted as nat, sellers as nat),
{
    let mut text = "\n".to_owned();
    push_repeated(&mut text, '\u{2550}', 60);
    text.append("\n");
    text.append("  Purchase Wizard \u{2014} ");
    text.append(&label_of(strategy));
    text.append(" Strategy\n  ");
    text.append(&decimal_text(wanted as u64));
    text.append(" wanted cards, ");
    text.append(&decimal_text(sellers as u64));
    text.append(" cached sellers\n");
    push_repeated(&mut text, '\u{2550}', 60);
    text.append("\n\n");
    text
}

/// The summary's column titles.
pub open spec fn summary_titles() -> Seq<char> {
    summary_line(
        "Tolerance"@,
        "Stores"@,
        "Found"@,
        "Skipped"@,
        "Cards"@,
        "Shipping"@,
        "Total"@,
        "Per card"@,
    ) + "  "@ + repeated('\u{2500}', 79) + "\n"@
}

fn titles_of() -> (text: String)
    ensures
        text@ == summary_titles(),
{
    let mut text = summary_line_of(
        "Tolerance",
        "Stores",
        "Found",
        "Skipped",
        "Cards",
        "Shipping",
        "Total",
        "Per card",
    );
    text.append("  ");
    push_repeated(&mut text, '\u{2500}', 79);
    text.append("\n");
    text
}

/// The summary of a run, then the last solution in full.
pub open spec fn wizard_summary(
    solutions: Seq<(usize, WizardSolution)>,
    strategy: Seq<char>,
    wanted: nat,
) -> Seq<char> {
    summary_heading(strategy, wanted, solutions[0].1.store_names@.len()) + summary_titles()
        + pieces(solutions.len() as int, solution_lines(solutions, wanted)) + "\n"@
        + wizard_table(solutions.last().1, strategy, solutions.last().0 as nat)
}

/// The solution's totals add up within range.
pub open spec fn printable(sol: WizardSolution) -> bool {
    &&& sol.skipped@.len() <= sol.assignments@.len()
    &&& sol.total_card_cost + sol.total_shipping <= u64::MAX
    &&& forall|i: int|
        0 <= i < sol.card_subtotals@.len() && i < sol.shipping_costs@.len() ==> (
        #[trigger] sol.card_subtotals@[i]) + sol.shipping_costs@[i] <= u64::MAX
}

/// Do the solution's totals add up within range?
pub fn is_printable(sol: &WizardSolution) -> (b: bool)
    ensures
        b == printable(*sol),
{
    if sol.skipped.len() > sol.assignments.len() || sol.total_card_cost > u64::MAX
        - sol.total_shipping {
        return false;
    }
    let mut i: usize = 0;
    while i < sol.card_subtotals.len() && i < sol.shipping_costs.len()
        invariant
            sol.skipped@.len() <= sol.assignments@.len(),
            sol.total_card_cost + sol.total_shipping <= u64::MAX,
            i <= sol.card_subtotals@.len(),
            i <= sol.shipping_costs@.len(),
            forall|k: int|
                0 <= k < i ==> (#[trigger] sol.card_subtotals@[k]) + sol.shipping_costs@[k]
                    <= u64::MAX,
        decreases sol.card_subtotals@.len() - i,
    {
        if sol.card_subtotals[i] > u64::MAX - sol.shipping_costs[i] as u64 {
            assert(sol.card_subtotals@[i as int] + sol.shipping_costs@[i as int] > u64::MAX);
            return false;
        }
        i += 1;
    }
    true
}

fn solution_lines_of(solutions: &Vec<(usize, WizardSolution)>, wanted: usize) -> (text: String)
    requires
        forall|i: int|
            0 <= i < solutions@.len() ==> printable((#[trigger] solutions@[i]).1)
                && solutions@[i].1.skipped@.len() <= wanted,
    ensures
        text@ == pieces(solutions@.len() as int, solution_lines(solutions@, wanted as nat)),
{
    let ghost f = solution_lines(solutions@, wanted as nat);
    let mut text = String::new();
    let mut i: usize = 0;
    while i < solutions.len()
        invariant
            f == solution_lines(solutions@, wanted as nat),
            forall|k: int|
                0 <= k < solutions@.len() ==> printable((#[trigger] solutions@[k]).1)
                    && solutions@[k].1.skipped@.len() <= wanted,
            i <= solutions@.len(),
            text@ == pieces(i as int, f),
        decreases solutions@.len() - i,
    {
        assert(printable(solutions@[i as int].1));
        text.append(&solution_line_of(solutions[i].0, &solutions[i].1, wanted));
        i += 1;
    }
    text
}

/// The summary of a run, then the last solution in full.
pub fn render_wizard_summary(
    solutions: &Vec<(usize, WizardSolution)>,
    strategy: &str,
    wanted: usize,
) -> (out: String)
    requires
        solutions@.len() > 0,
        forall|i: int|
            0 <= i < solutions@.len() ==> printable((#[trigger] solutions@[i]).1)
                && solutions@[i].1.skipped@.len() <= wanted,
    ensures
        out@ == wizard_summary(solutions@, strategy@, wanted as nat),
{
    let mut out = joined(
        &heading_of(strategy, wanted, solutions[0].1.store_names.len()),
        &titles_of(),
    );
    out.append(&solution_lines_of(solutions, wanted));
    out.append("\n");
    let last: usize = solutions.len() - 1;
    assert(printable(solutions@[last as int].1));
    out.append(&render_wizard_table(&solutions[last].1, strategy, solutions[last].0));
    out
}

/// The cards bought at a store.
pub open spec fn bought_from(assigned: Seq<CardLine>, store: Seq<char>) -> Seq<Asked>
    decreases assigned.len(),
{
    if assigned.len() == 0 {
        Seq::empty()
    } else {
        let rest = bought_from(assigned.drop_last(), store);
        match assigned.last().1 {
            Some((s, price, url)) if s == store => rest.push(
                Asked { card: assigned.last().0, price, url },
            ),
            _ => rest,
        }
    }
}

fn bought_at_store(sol: &WizardSolution, store: &str) -> (bought: Vec<SellerLine>)
    ensures
        views(bought@) == bought_from(lines(sol.assignments@), store@),
{
    let ghost all = lines(sol.assignments@);
    let mut bought: Vec<SellerLine> = Vec::new();
    let mut i: usize = 0;
    assert(all.take(0) =~= Seq::empty());
    assert(views(bought@) =~= Seq::empty());
    while i < sol.assignments.len()
        invariant
            all == lines(sol.assignments@),
            i <= sol.assignments@.len(),
            views(bought@) == bought_from(all.take(i as int), store@),
        decreases sol.assignments@.len() - i,
    {
        proof {
            let t = all.take(i + 1);
            assert(t.drop_last() =~= all.take(i as int));
            assert(t.last() == line_view(sol.assignments@[i as int]));
        }
        if let Some((s, price, url)) = &sol.assignments[i].1 {
            if same_text(s, store) {
                let line = SellerLine {
                    card: sol.assignments[i].0.clone(),
                    price: *price,
                    url: url.clone(),
                };
                proof {
                    lemma_views_push(bought@, line);
                }
                bought.push(line);
            }
        }
        i += 1;
    }
    assert(all.take(i as int) =~= all);
    bought
}

/// The names of the cards that are bought.
pub open spec fn bought_names(assigned: Seq<CardLine>) -> Seq<Seq<char>>
    decreases assigned.len(),
{
    if assigned.len() == 0 {
        Seq::empty()
    } else {
        let rest = bought_names(assigned.drop_last());
        if assigned.last().1 is Some {
            rest.push(assigned.last().0)
        } else {
            rest
        }
    }
}

fn names_bought(sol: &WizardSolution) -> (names: Vec<String>)
    ensures
        texts(names@) == bought_names(lines(sol.assignments@)),
{
    let ghost all = lines(sol.assignments@);
    let mut names: Vec<String> = Vec::new();
    let mut i: usize = 0;
    assert(all.take(0) =~= Seq::empty());
    assert(texts(names@) =~= Seq::empty());
    while i < sol.assignments.len()
        invariant
            all == lines(sol.assignments@),
            i <= sol.assignments@.len(),
            texts(names@) == bought_names(all.take(i as int)),
        decreases sol.assignments@.len() - i,
    {
        proof {
            let t = all.take(i + 1);
            assert(t.drop_last() =~= all.take(i as int));
            assert(t.last() == line_view(sol.assignments@[i as int]));
        }
        if sol.assignments[i].1.is_some() {
            let ghost n0 = names@;
            names.push(sol.assignments[i].0.clone());
            assert(texts(names@) =~= texts(n0).push(sol.assignments@[i as int].0@));
        }
        i += 1;
    }
    assert(all.take(i as int) =~= all);
    names
}

/// Below `k`, the last position of a store that has both totals.
pub open spec fn totals_at(sol: WizardSolution, store: Seq<char>, k: int) -> Option<int>
    decreases k,
{
    if k <= 0 {
        None
    } else if k <= sol.card_subtotals@.len() && k <= sol.shipping_costs@.len()
        && sol.store_names@[k - 1]@ == store {
        Some(k - 1)
    } else {
        totals_at(sol, store, k - 1)
    }
}

/// What a store's cards and shipping cost.
pub open spec fn store_totals(sol: WizardSolution, store: Seq<char>) -> (nat, nat) {
    match totals_at(sol, store, sol.store_names@.len() as int) {
        Some(i) => (sol.card_subtotals@[i] as nat, sol.shipping_costs@[i] as nat),
        None => (0, 0),
    }
}

fn totals_of(sol: &WizardSolution, store: &str) -> (totals: (u64, u64))
    requires
        printable(*sol),
    ensures
        (totals.0 as nat, totals.1 as nat) == store_totals(*sol, store@),
        totals.0 + totals.1 <= u64::MAX,
{
    let mut k: usize = sol.store_names.len();
    while k > 0
        invariant
            printable(*sol),
            k <= sol.store_names@.len(),
            totals_at(*sol, store@, sol.store_names@.len() as int) == totals_at(
                *sol,
                store@,
                k as int,
            ),
        decreases k,
    {
        if k <= sol.card_subtotals.len() && k <= sol.shipping_costs.len() && same_text(
            &sol.store_names[k - 1],
            store,
        ) {
            assert(sol.card_subtotals@[k - 1] + sol.shipping_costs@[k - 1] <= u64::MAX);
            return (sol.card_subtotals[k - 1], sol.shipping_costs[k - 1] as u64);
        }
        k -= 1;
    }
    (0, 0)
}

/// The totals of a store.
pub open spec fn totals_line(cards: nat, shipping: nat) -> Seq<char> {
    "    Card subtotal: "@ + price_text(cards) + "  |  Shipping: "@ + price_text(shipping)
        + "  |  Store total: "@ + price_text(cards + shipping) + "\n"@
}

/// The cards bought at a store, with the store's totals; nothing if there are none.
pub open spec fn store_block(sol: WizardSolution, store: Seq<char>, width: int) -> Seq<char> {
    let bought = bought_from(lines(sol.assignments@), store);
    let totals = store_totals(sol, store);
    if bought.len() == 0 {
        Seq::empty()
    } else {
        "\n"@ + name_line(store, bought.len()) + pieces(
            bought.len() as int,
            card_line(bought, width),
        ) + "    "@ + repeated('\u{2500}', (width + 16) as nat) + "\n"@ + totals_line(
            totals.0,
            totals.1,
        )
    }
}

pub open spec fn store_blocks(sol: WizardSolution, width: int) -> spec_fn(int) -> Seq<char> {
    |i: int| store_block(sol, sol.store_names@[i]@, width)
}

fn push_store_block(out: &mut String, sol: &WizardSolution, store: &str, width: usize)
    requires
        printable(*sol),
    ensures
        final(out)@ == old(out)@ + store_block(*sol, store@, width as int),
{
    let bought = bought_at_store(sol, store);
    assert(views(bought@).len() == bought@.len());
    if bought.len() == 0 {
        assert(out@ =~= old(out)@ + store_block(*sol, store@, width as int));
        return;
    }
    let (cards, shipping) = totals_of(sol, store);
    out.append("\n");
    push_name_line(out, store, bought.len());
    push_lines(out, &bought, width);
    out.append("    ");
    push_repeated(out, '\u{2500}', width);
    push_repeated(out, '\u{2500}', 16);
    out.append("\n");
    push_totals_line(out, cards, shipping);
    proof {
        assert(repeated('\u{2500}', width as nat) + repeated('\u{2500}', 16) =~= repeated(
            '\u{2500}',
            (width + 16) as nat,
        ));
        assert(out@ =~= old(out)@ + store_block(*sol, store@, width as int));
    }
}

fn push_totals_line(out: &mut String, cards: u64, shipping: u64)
    requires
        cards + shipping <= u64::MAX,
    ensures
        final(out)@ == old(out)@ + totals_line(cards as nat, shipping as nat),
{
    out.append("    Card subtotal: ");
    out.append(&format_price_u64(cards));
    out.append("  |  Shipping: ");
    out.append(&format_price_u64(shipping));
    out.append("  |  Store total: ");
    out.append(&format_price_u64(cards + shipping));
    out.append("\n");
    assert(out@ =~= old(out)@ + totals_line(cards as nat, shipping as nat));
}

/// The names with commas between them.
pub open spec fn name_list(names: Seq<Seq<char>>) -> Seq<char>
    decreases names.len(),
{
    if names.len() == 0 {
        Seq::empty()
    } else if names.len() == 1 {
        names[0]
    } else {
        name_list(names.drop_last()) + ", "@ + names.last()
    }
}

/// The names with commas between them.
pub fn join_names(names: &Vec<String>) -> (list: String)
    ensures
        list@ == name_list(texts(names@)),
{
    let ghost all = texts(names@);
    let mut list = String::new();
    if names.len() == 0 {
        assert(list@ =~= name_list(all));
        return list;
    }
    list = names[0].clone();
    let mut i: usize = 1;
    assert(all.take(1)[0] == names@[0]@);
    while i < names.len()
        invariant
            all == texts(names@),
            1 <= i <= names@.len(),
            list@ == name_list(all.take(i as int)),
        decreases names@.len() - i,
    {
        proof {
            let t = all.take(i + 1);
            assert(t.drop_last() =~= all.take(i as int));
            assert(t.last() == names@[i as int]@);
        }
        list.append(", ");
        list.append(&names[i]);
        i += 1;
    }
    assert(all.take(i as int) =~= all);
    list
}

/// The heading of a solution.
pub open spec fn table_heading(sol: WizardSolution, strategy: Seq<char>, tolerance: nat) -> Seq<char> {
    let all = sol.assignments@.len();
    let found = (all - sol.skipped@.len()) as nat;
    "\n"@ + repeated('\u{2550}', 50) + "\n  Purchase Wizard \u{2014} "@ + strategy_label(strategy)
        + " Strategy (tolerance: "@ + decimal(tolerance) + ")\n"@ + repeated('\u{2550}', 50)
        + "\n"@ + repeated('\u{2500}', 42) + "\n  "@ + decimal(sol.num_stores as nat) + " store"@
        + plural(sol.num_stores as nat) + ", "@ + decimal(found) + "/"@ + decimal(all) + " cards, "@
        + price_text(grand_total(sol)) + " total\n"@ + repeated('\u{2500}', 42) + "\n"@
}

fn table_heading_of(sol: &WizardSolution, strategy: &str, tolerance: usize) -> (text: String)
    requires
        printable(*sol),
    ensures
        text@ == table_heading(*sol, strategy@, tolerance as nat),
{
    let all: usize = sol.assignments.len();
    let found: usize = all - sol.skipped.len();
    let grand: u64 = sol.total_card_cost + sol.total_shipping;
    let mut text = "\n".to_owned();
    push_repeated(&mut text, '\u{2550}', 50);
    text.append("\n  Purchase Wizard \u{2014} ");
    text.append(&label_of(strategy));
    text.append(" Strategy (tolerance: ");
    text.append(&decimal_text(tolerance as u64));
    text.append(")\n");
    push_repeated(&mut text, '\u{2550}', 50);
    text.append("\n");
    push_repeated(&mut text, '\u{2500}', 42);
    text.append("\n  ");
    text.append(&decimal_text(sol.num_stores as u64));
    text.append(" store");
    text.append(plural_of(sol.num_stores));
    text.append(", ");
    text.append(&decimal_text(found as u64));
    text.append("/");
    text.append(&decimal_text(all as u64));
    text.append(" cards, ");
    text.append(&format_price_u64(grand));
    text.append(" total\n");
    push_repeated(&mut text, '\u{2500}', 42);
    text.append("\n");
    text
}

/// The cards that are skipped, if any are.
pub open spec fn skipped_line(sol: WizardSolution) -> Seq<char> {
    if sol.skipped@.len() > 0 {
        "  Skipped ("@ + decimal(sol.skipped@.len()) + "): "@ + name_list(texts(sol.skipped@))
            + "\n"@
    } else {
        ""@
    }
}

fn skipped_line_of(sol: &WizardSolution) -> (line: String)
    ensures
        line@ == skipped_line(*sol),
{
    if sol.skipped.len() == 0 {
        return "".to_owned();
    }
    let mut line = "  Skipped (".to_owned();
    line.append(&decimal_text(sol.skipped.len() as u64));
    line.append("): ");
    line.append(&join_names(&sol.skipped));
    line.append("\n");
    line
}

/// The grand total, and the cards that are skipped.
pub open spec fn table_footer(sol: WizardSolution) -> Seq<char> {
    "\n"@ + repeated('\u{2500}', 60) + "\n  GRAND TOTAL: "@ + price_text(grand_total(sol))
        + "  |  Card total: "@ + price_text(sol.total_card_cost as nat) + "  |  Shipping: "@
        + price_text(sol.total_shipping as nat) + "\n"@ + skipped_line(sol) + "\n"@
}

fn table_footer_of(sol: &WizardSolution) -> (text: String)
    requires
        printable(*sol),
    ensures
        text@ == table_footer(*sol),
{
    let grand: u64 = sol.total_card_cost + sol.total_shipping;
    let mut text = "\n".to_owned();
    push_repeated(&mut text, '\u{2500}', 60);
    text.append("\n  GRAND TOTAL: ");
    text.append(&format_price_u64(grand));
    text.append("  |  Card total: ");
    text.append(&format_price_u64(sol.total_card_cost));
    text.append("  |  Shipping: ");
    text.append(&format_price_u64(sol.total_shipping));
    text.append("\n");
    text.append(&skipped_line_of(sol));
    text.append("\n");
    text
}

/// A solution store by store.
pub open spec fn wizard_table(sol: WizardSolution, strategy: Seq<char>, tolerance: nat) -> Seq<char> {
    let width = widest(bought_names(lines(sol.assignments@)), 10) as int;
    table_heading(sol, strategy, tolerance) + (if sol.store_names@.len() == 0 {
        "  (no stores used \u{2014} all cards skipped)\n\n"@
    } else {
        pieces(sol.store_names@.len() as int, store_blocks(sol, width)) + table_footer(sol)
    })
}

/// A solution store by store.
pub fn render_wizard_table(sol: &WizardSolution, strategy: &str, tolerance: usize) -> (out: String)
    requires
        printable(*sol),
    ensures
        out@ == wizard_table(*sol, strategy@, tolerance as nat),
{
    let mut out = table_heading_of(sol, strategy, tolerance);
    if sol.store_names.len() == 0 {
        out.append("  (no stores used \u{2014} all cards skipped)\n\n");
        return out;
    }
    let width: usize = widest_of(&names_bought(sol), 10);
    let ghost head = out@;
    let ghost f = store_blocks(*sol, width as int);
    let mut i: usize = 0;
    assert(out@ =~= head + pieces(0, f));
    while i < sol.store_names.len()
        invariant
            printable(*sol),
            f == store_blocks(*sol, width as int),
            i <= sol.store_names@.len(),
            out@ == head + pieces(i as int, f),
        decreases sol.store_names@.len() - i,
    {
        let ghost before = out@;
        push_store_block(&mut out, sol, &sol.store_names[i], width);
        proof {
            assert(out@ =~= before + f(i as int));
            assert(out@ =~= head + pieces(i + 1, f));
        }
        i += 1;
    }
    out.append(&table_footer_of(sol));
    assert(out@ =~= wizard_table(*sol, strategy@, tolerance as nat));
    out
}

} // verus!
