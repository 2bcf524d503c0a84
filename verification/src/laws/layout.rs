//! How the tables are laid out.

use crate::laws::output::law_columns;
use crate::output::{
    capitalized, cell, left_aligned, linked, pieces, plural, price_text, repeated, right_aligned,
    short_name,
};
use crate::output::sellers::{
    all_sellers, category_text, entries, heading_text, name_line, others_text, seller_section,
    seller_text, slots, stand_text, sum, Category,
};
use crate::output::stores::{
    card_row, column_total, column_width, columns, header_cell, lowest_column, marked_price, offer,
    offer_cell, rule_len, shown_cards, store_table, total_cell, widest,
};
use crate::output::wizard::{
    bought_from, bought_names, name_list, skipped_line, solution_line, solution_lines, store_block,
    store_blocks, store_totals, strategy_label, summary_heading, summary_titles, table_footer,
    table_heading, totals_line, wizard_summary, wizard_table,
};
use crate::stores::Listing;
use crate::text::{byte_len, decimal, ends_with, starts_with, texts, uppercase};
use crate::wizard::solution::{lines, WizardSolution};
use vstd::prelude::*;

verus! {

/// A text is filled up to a width with spaces, on the right or on the left; a
/// longer one stays as it is.
pub proof fn law_filling_up(text: Seq<char>, width: int, i: int)
    ensures
        text.len() <= width ==> left_aligned(text, width).len() == width && right_aligned(
            text,
            width,
        ).len() == width,
        text.len() >= width ==> left_aligned(text, width) == text && right_aligned(text, width)
            == text,
        left_aligned(text, width).take(text.len() as int) == text,
        text.len() <= i < width ==> left_aligned(text, width)[i] == ' ',
        0 <= i < width - text.len() ==> right_aligned(text, width)[i] == ' ',
        text.len() <= width ==> right_aligned(text, width).skip(width - text.len()) == text,
{
    assert(left_aligned(text, width).take(text.len() as int) =~= text);
    if text.len() >= width {
        assert(left_aligned(text, width) =~= text);
        assert(right_aligned(text, width) =~= text);
    }
    if text.len() <= width {
        assert(right_aligned(text, width).skip(width - text.len()) =~= text);
    }
}

/// A cell holds its text and is filled up by the width of what is visible of it.
pub proof fn law_cells(visible: Seq<char>, raw: Seq<char>, width: int, i: int)
    ensures
        cell(visible, raw, width).take(raw.len() as int) == raw,
        byte_len(visible) <= width ==> cell(visible, raw, width).len() == raw.len() + width
            - byte_len(visible),
        byte_len(visible) >= width ==> cell(visible, raw, width) == raw,
        raw.len() <= i < cell(visible, raw, width).len() ==> cell(visible, raw, width)[i] == ' ',
{
    assert(cell(visible, raw, width).take(raw.len() as int) =~= raw);
    if byte_len(visible) >= width {
        assert(cell(visible, raw, width) =~= raw);
    }
}

/// Exactly one is singular.
pub proof fn law_plurals(n: nat)
    ensures
        n == 1 ==> plural(n).len() == 0,
        n != 1 ==> plural(n) == "s"@,
{
    reveal_strlit("");
}

/// Names in a list are separated by a comma and a space.
pub proof fn law_name_lists(names: Seq<Seq<char>>, name: Seq<char>)
    ensures
        name_list(Seq::empty()).len() == 0,
        name_list(seq![name]) == name,
        names.len() > 0 ==> name_list(names.push(name)) == name_list(names) + ", "@ + name,
{
    assert(names.push(name).drop_last() =~= names);
}

/// A storefront is shown without its ending, with a capital first letter; a name
/// without one of the four endings stays.
pub proof fn law_storefront_names(base: Seq<char>)
    requires
        !starts_with(base + ".no"@, "cardmarket"@),
    ensures
        short_name(base + ".no"@) == capitalized(base),
        base.len() > 0 ==> capitalized(base).len() >= base.len() - 1 && capitalized(base).skip(
            capitalized(base).len() - (base.len() - 1),
        ) == base.skip(1) && starts_with(capitalized(base), uppercase(base.take(1))),
{
    reveal_strlit("cardmarket");
    reveal_strlit("cardmarket.com:");
    reveal_strlit("cardmarket-int.com:");
    reveal_strlit("cardmarket-int-private.com:");
    reveal_strlit(".no");
    let name = base + ".no"@;
    crate::laws::shipping::lemma_longer_prefix(name, "cardmarket"@, "cardmarket.com:"@);
    crate::laws::shipping::lemma_longer_prefix(name, "cardmarket"@, "cardmarket-int.com:"@);
    crate::laws::shipping::lemma_longer_prefix(
        name,
        "cardmarket"@,
        "cardmarket-int-private.com:"@,
    );
    assert(name.skip(name.len() - 3) =~= ".no"@);
    assert(name.take(name.len() - 3) =~= base);
    assert(ends_with(name, ".no"@));
    if base.len() > 0 {
        let up = uppercase(base.take(1));
        assert((up + base.skip(1)).skip(up.len() as int) =~= base.skip(1));
        crate::laws::shipping::lemma_prefix(up, base.skip(1));
    }
}

/// The part stands in the whole.
pub open spec fn within(part: Seq<char>, whole: Seq<char>) -> bool {
    exists|a: Seq<char>, b: Seq<char>| whole == #[trigger] ((a + part) + b)
}

proof fn lemma_within(a: Seq<char>, part: Seq<char>, b: Seq<char>)
    ensures
        within(part, (a + part) + b),
{
}

proof fn lemma_within_within(inner: Seq<char>, part: Seq<char>, whole: Seq<char>)
    requires
        within(inner, part),
        within(part, whole),
    ensures
        within(inner, whole),
{
    let (a, b) = choose|a: Seq<char>, b: Seq<char>| part == #[trigger] ((a + inner) + b);
    let (c, d) = choose|c: Seq<char>, d: Seq<char>| whole == #[trigger] ((c + part) + d);
    assert(whole =~= ((c + a) + inner) + (b + d));
    lemma_within(c + a, inner, b + d);
}

proof fn lemma_in_sum(part: Seq<char>, a: Seq<char>, b: Seq<char>)
    requires
        within(part, a) || within(part, b),
    ensures
        within(part, a + b),
{
    assert((Seq::<char>::empty() + a) + b =~= a + b);
    lemma_within(Seq::empty(), a, b);
    assert((a + b) + Seq::<char>::empty() =~= a + b);
    lemma_within(a, b, Seq::empty());
    if within(part, a) {
        lemma_within_within(part, a, a + b);
    } else {
        lemma_within_within(part, b, a + b);
    }
}

proof fn lemma_self(part: Seq<char>)
    ensures
        within(part, part),
{
    assert((Seq::<char>::empty() + part) + Seq::<char>::empty() =~= part);
    lemma_within(Seq::empty(), part, Seq::empty());
}

proof fn lemma_in_pieces(n: int, f: spec_fn(int) -> Seq<char>, i: int)
    requires
        0 <= i < n,
    ensures
        within(f(i), pieces(n, f)),
    decreases n,
{
    lemma_self(f(i));
    if i < n - 1 {
        lemma_in_pieces(n - 1, f, i);
    }
    lemma_in_sum(f(i), pieces(n - 1, f), f(n - 1));
}

/// A price shows as a link to the listing, in green where it is the lowest.
pub open spec fn shown_price(r: Listing, lowest: bool) -> Seq<char> {
    if lowest {
        "\x1b]8;;"@ + r.url + "\x1b\\"@ + ("\x1b[32m"@ + price_text(r.price as nat) + "\x1b[0m"@)
            + "\x1b]8;;\x1b\\"@
    } else {
        "\x1b]8;;"@ + r.url + "\x1b\\"@ + price_text(r.price as nat) + "\x1b]8;;\x1b\\"@
    }
}

/// The table of storefronts shows the cheapest listing of every card at every
/// store, linked, and in green where no store asks less.
pub proof fn law_table_shows_every_offer(
    cards: Seq<Seq<char>>,
    rs: Seq<Listing>,
    card: Seq<char>,
    r: Listing,
)
    requires
        cards.contains(card),
        offer(rs, card, r.store) == Some(r),
        exists|i: int| 0 <= i < rs.len() && #[trigger] rs[i] == r,
        r.card == card,
    ensures
        within(shown_price(r, true), store_table(cards, rs)) || within(
            shown_price(r, false),
            store_table(cards, rs),
        ),
        (lowest_column(rs, card, columns(rs)) matches Some(b) && columns(rs)[b] == r.store)
            ==> within(shown_price(r, true), store_table(cards, rs)),
{
    let shown = shown_cards(cards, rs);
    let cols = columns(rs);
    let k = lemma_shown_at(cards, rs, card, r);
    law_columns(rs, r.store);
    let j = choose|i: int| 0 <= i < rs.len() && #[trigger] rs[i] == r;
    assert(rs[j].store == r.store);
    let i = choose|i: int| 0 <= i < cols.len() && cols[i] == r.store;
    let lowest = lowest_column(rs, card, cols) == Some(i);
    let price = linked(r.url, marked_price(r, lowest));
    assert(price == shown_price(r, lowest));
    let width = column_width(shown, rs, cols[i]) as int;
    let c = cell(price_text(r.price as nat), price, width);
    let cells = offer_cell(shown, rs, cols, card);
    lemma_self(price);
    lemma_in_sum(
        price,
        price,
        repeated(
            ' ',
            crate::output::shortfall(width, byte_len(price_text(r.price as nat)) as int),
        ),
    );
    lemma_in_sum(price, " | "@, c);
    assert(cells(i) == " | "@ + c);
    lemma_in_pieces(cols.len() as int, cells, i);
    lemma_within_within(price, cells(i), pieces(cols.len() as int, cells));
    let rows = card_row(shown, rs, cols);
    let head = left_aligned(shown[k], widest(shown, 4) as int);
    lemma_in_sum(price, head, pieces(cols.len() as int, cells));
    lemma_in_sum(price, head + pieces(cols.len() as int, cells), "\n"@);
    lemma_in_pieces(shown.len() as int, rows, k);
    lemma_within_within(price, rows(k), pieces(shown.len() as int, rows));
    lemma_rows_in_table(cards, rs, price);
    if let Some(b) = lowest_column(rs, card, cols) {
        crate::laws::output::law_marked_price_is_lowest(rs, card, cols);
        if cols[b] == r.store {
            assert(b == i);
        }
    }
}

proof fn lemma_shown_at(
    cards: Seq<Seq<char>>,
    rs: Seq<Listing>,
    card: Seq<char>,
    r: Listing,
) -> (k: int)
    requires
        cards.contains(card),
        exists|i: int| 0 <= i < rs.len() && #[trigger] rs[i] == r,
        r.card == card,
    ensures
        0 <= k < shown_cards(cards, rs).len(),
        shown_cards(cards, rs)[k] == card,
    decreases cards.len(),
{
    let rest = shown_cards(cards.drop_last(), rs);
    let i = choose|i: int| 0 <= i < rs.len() && #[trigger] rs[i] == r;
    assert(rs[i].card == card);
    assert(crate::output::stores::carried(rs, card));
    if cards.last() == card {
        rest.len() as int
    } else {
        let j = choose|j: int| 0 <= j < cards.len() && cards[j] == card;
        assert(cards.drop_last()[j] == card);
        lemma_shown_at(cards.drop_last(), rs, card, r)
    }
}

proof fn lemma_rows_in_table(cards: Seq<Seq<char>>, rs: Seq<Listing>, part: Seq<char>)
    requires
        shown_cards(cards, rs).len() > 0,
        ({
            let shown = shown_cards(cards, rs);
            within(part, pieces(shown.len() as int, card_row(shown, rs, columns(rs))))
        }),
    ensures
        within(part, store_table(cards, rs)),
{
    let shown = shown_cards(cards, rs);
    let cols = columns(rs);
    let n = cols.len() as int;
    let rule = repeated('-', rule_len(shown, rs, cols)) + "\n"@;
    let top = left_aligned("Card"@, widest(shown, 4) as int) + pieces(
        n,
        header_cell(shown, rs, cols),
    ) + "\n"@ + rule;
    let rows = pieces(shown.len() as int, card_row(shown, rs, cols));
    let label = left_aligned("Total"@, widest(shown, 4) as int);
    let totals = pieces(n, total_cell(shown, rs, cols));
    lemma_in_sum(part, top, rows);
    lemma_in_sum(part, top + rows, rule);
    lemma_in_sum(part, top + rows + rule, label);
    lemma_in_sum(part, top + rows + rule + label, totals);
    lemma_in_sum(part, top + rows + rule + label + totals, "\n"@);
}

/// Without a card that a storefront has, there is no table.
pub proof fn law_no_table_without_listings(cards: Seq<Seq<char>>, rs: Seq<Listing>)
    requires
        forall|c: int, i: int|
            0 <= c < cards.len() && 0 <= i < rs.len() ==> (#[trigger] cards[c]) != (
            #[trigger] rs[i]).card,
    ensures
        store_table(cards, rs).len() == 0,
    decreases cards.len(),
{
    if cards.len() > 0 {
        let init = cards.drop_last();
        assert forall|c: int, i: int| 0 <= c < init.len() && 0 <= i < rs.len() implies (
        #[trigger] init[c]) != (#[trigger] rs[i]).card by {
            assert(cards[c] == init[c]);
        }
        law_no_table_without_listings(init, rs);
        lemma_nothing_shown(cards, rs);
    }
}

proof fn lemma_nothing_shown(cards: Seq<Seq<char>>, rs: Seq<Listing>)
    requires
        forall|c: int, i: int|
            0 <= c < cards.len() && 0 <= i < rs.len() ==> (#[trigger] cards[c]) != (
            #[trigger] rs[i]).card,
    ensures
        shown_cards(cards, rs).len() == 0,
    decreases cards.len(),
{
    if cards.len() > 0 {
        let init = cards.drop_last();
        assert forall|c: int, i: int| 0 <= c < init.len() && 0 <= i < rs.len() implies (
        #[trigger] init[c]) != (#[trigger] rs[i]).card by {
            assert(cards[c] == init[c]);
        }
        lemma_nothing_shown(init, rs);
        assert(cards[cards.len() - 1] == cards.last());
    }
}

/// The total of each column stands under it.
pub proof fn law_table_shows_totals(cards: Seq<Seq<char>>, rs: Seq<Listing>, store: Seq<char>)
    requires
        shown_cards(cards, rs).len() > 0,
        columns(rs).contains(store),
        column_total(shown_cards(cards, rs), rs, store) > 0,
    ensures
        within(
            price_text(column_total(shown_cards(cards, rs), rs, store)),
            store_table(cards, rs),
        ),
{
    let shown = shown_cards(cards, rs);
    let cols = columns(rs);
    let n = cols.len() as int;
    let i = choose|i: int| 0 <= i < cols.len() && cols[i] == store;
    let text = price_text(column_total(shown, rs, store));
    let width = column_width(shown, rs, store) as int;
    let cells = total_cell(shown, rs, cols);
    lemma_self(text);
    lemma_in_sum(
        text,
        text,
        repeated(' ', crate::output::shortfall(width, byte_len(text) as int)),
    );
    lemma_in_sum(text, " | "@, cell(text, text, width));
    assert(cells(i) == " | "@ + cell(text, text, width));
    lemma_in_pieces(n, cells, i);
    lemma_within_within(text, cells(i), pieces(n, cells));
    let rule = repeated('-', rule_len(shown, rs, cols)) + "\n"@;
    let front = left_aligned("Card"@, widest(shown, 4) as int) + pieces(
        n,
        header_cell(shown, rs, cols),
    ) + "\n"@ + rule + pieces(shown.len() as int, card_row(shown, rs, cols)) + rule
        + left_aligned("Total"@, widest(shown, 4) as int);
    lemma_in_sum(text, front, pieces(n, cells));
    lemma_in_sum(text, front + pieces(n, cells), "\n"@);
}

/// The rule under the header is no longer than 200.
pub proof fn law_rule(shown: Seq<Seq<char>>, rs: Seq<Listing>, cols: Seq<Seq<char>>)
    ensures
        rule_len(shown, rs, cols) <= 200,
{
}

/// Every seller that is shown has a block that ends with the sum of their lines.
pub proof fn law_section_shows_sellers(cards: Seq<Seq<char>>, rs: Seq<Listing>, i: int)
    requires
        rs.len() > 0,
        0 <= i < slots(cards, rs).norwegian,
        all_sellers(cards, rs).norwegian.len() > 0,
    ensures
        ({
            let seller = all_sellers(cards, rs).norwegian[i];
            within(
                "    Subtotal: "@ + price_text(sum(entries(cards, rs, seller))),
                seller_section(cards, rs),
            )
        }),
{
    let all = all_sellers(cards, rs);
    let shown = slots(cards, rs);
    let seller = all.norwegian[i];
    let width = widest(shown_cards(cards, rs), 10) as int;
    let part = "    Subtotal: "@ + price_text(sum(entries(cards, rs, seller)));
    let found = entries(cards, rs, seller);
    let head = name_line(seller, found.len()) + pieces(
        found.len() as int,
        crate::output::sellers::card_line(found, width),
    ) + "    "@ + repeated('-', (width + 16) as nat) + "\n"@;
    let block = stand_text(cards, rs, seller, width);
    assert(block =~= (head + part) + "\n"@);
    lemma_within(head, part, "\n"@);
    let blocks = seller_text(cards, rs, all.norwegian, width);
    let visible = shown.norwegian;
    lemma_in_pieces(visible as int, blocks, i);
    assert(blocks(i) == block);
    lemma_within_within(part, block, pieces(visible as int, blocks));
    let top = heading_text(Category::Norwegian, all.norwegian.len(), visible);
    lemma_in_sum(part, top, pieces(visible as int, blocks));
    lemma_in_sum(
        part,
        top + pieces(visible as int, blocks),
        others_text(cards, rs, all.norwegian, visible),
    );
    let no = category_text(cards, rs, Category::Norwegian, all.norwegian, visible);
    let power = category_text(
        cards,
        rs,
        Category::Powerseller,
        all.powerseller,
        shown.powerseller,
    );
    let private = category_text(cards, rs, Category::Private, all.private, shown.private);
    lemma_in_sum(part, no, power);
    lemma_in_sum(part, no + power, private);
    lemma_in_sum(part, no + power + private, "\n"@);
}

/// A solution is shown with its grand total, its card total and its shipping.
pub proof fn law_table_shows_the_grand_total(
    sol: WizardSolution,
    strategy: Seq<char>,
    tolerance: nat,
)
    requires
        sol.store_names@.len() > 0,
    ensures
        within(
            "  GRAND TOTAL: "@ + price_text((sol.total_card_cost + sol.total_shipping) as nat)
                + "  |  Card total: "@ + price_text(sol.total_card_cost as nat)
                + "  |  Shipping: "@ + price_text(sol.total_shipping as nat) + "\n"@,
            wizard_table(sol, strategy, tolerance),
        ),
        sol.skipped@.len() > 0 ==> within(
            name_list(texts(sol.skipped@)),
            wizard_table(sol, strategy, tolerance),
        ),
{
    reveal_strlit("\n  GRAND TOTAL: ");
    reveal_strlit("  GRAND TOTAL: ");
    reveal_strlit("\n");
    let whole = price_text((sol.total_card_cost + sol.total_shipping) as nat);
    let part = "  GRAND TOTAL: "@ + whole + "  |  Card total: "@ + price_text(
        sol.total_card_cost as nat,
    ) + "  |  Shipping: "@ + price_text(sol.total_shipping as nat) + "\n"@;
    let rule = "\n"@ + repeated('\u{2500}', 60);
    let tail = skipped_line(sol) + "\n"@;
    assert("\n  GRAND TOTAL: "@ =~= "\n"@ + "  GRAND TOTAL: "@);
    let footer = table_footer(sol);
    assert(footer =~= ((rule + "\n"@) + part) + tail);
    lemma_within(rule + "\n"@, part, tail);
    let width = widest(bought_names(lines(sol.assignments@)), 10) as int;
    let blocks = pieces(sol.store_names@.len() as int, store_blocks(sol, width));
    lemma_in_sum(part, blocks, footer);
    lemma_in_sum(part, table_heading(sol, strategy, tolerance), blocks + footer);
    if sol.skipped@.len() > 0 {
        let names = name_list(texts(sol.skipped@));
        let before = "  Skipped ("@ + decimal(sol.skipped@.len()) + "): "@;
        lemma_within(before, names, "\n"@);
        lemma_in_sum(names, skipped_line(sol), "\n"@);
        lemma_in_sum(names, (rule + "\n"@) + part, tail);
        lemma_in_sum(names, blocks, footer);
        lemma_in_sum(names, table_heading(sol, strategy, tolerance), blocks + footer);
    }
}

/// A store's block shows what its cards and its shipping cost, and both together.
pub proof fn law_table_shows_store_totals(
    sol: WizardSolution,
    strategy: Seq<char>,
    tolerance: nat,
    i: int,
)
    requires
        0 <= i < sol.store_names@.len(),
        bought_from(lines(sol.assignments@), sol.store_names@[i]@).len() > 0,
    ensures
        ({
            let totals = store_totals(sol, sol.store_names@[i]@);
            within(
                "    Card subtotal: "@ + price_text(totals.0) + "  |  Shipping: "@ + price_text(
                    totals.1,
                ) + "  |  Store total: "@ + price_text(totals.0 + totals.1) + "\n"@,
                wizard_table(sol, strategy, tolerance),
            )
        }),
{
    let store = sol.store_names@[i]@;
    let totals = store_totals(sol, store);
    let part = totals_line(totals.0, totals.1);
    let width = widest(bought_names(lines(sol.assignments@)), 10) as int;
    let bought = bought_from(lines(sol.assignments@), store);
    let head = "\n"@ + name_line(store, bought.len()) + pieces(
        bought.len() as int,
        crate::output::sellers::card_line(bought, width),
    ) + "    "@ + repeated('\u{2500}', (width + 16) as nat) + "\n"@;
    lemma_self(part);
    lemma_in_sum(part, head, part);
    let all = store_blocks(sol, width);
    let n = sol.store_names@.len() as int;
    lemma_in_pieces(n, all, i);
    assert(all(i) == store_block(sol, store, width));
    lemma_within_within(part, all(i), pieces(n, all));
    lemma_in_sum(part, pieces(n, all), table_footer(sol));
    lemma_in_sum(
        part,
        table_heading(sol, strategy, tolerance),
        pieces(n, all) + table_footer(sol),
    );
}

/// A summary has a line for every solution, then the last solution in full.
pub proof fn law_summary_shows_every_solution(
    solutions: Seq<(usize, WizardSolution)>,
    strategy: Seq<char>,
    wanted: nat,
    i: int,
)
    requires
        0 <= i < solutions.len(),
    ensures
        within(
            solution_line(solutions[i].0, solutions[i].1, wanted),
            wizard_summary(solutions, strategy, wanted),
        ),
        within(
            wizard_table(solutions.last().1, strategy, solutions.last().0 as nat),
            wizard_summary(solutions, strategy, wanted),
        ),
{
    let n = solutions.len() as int;
    let all = solution_lines(solutions, wanted);
    let part = solution_line(solutions[i].0, solutions[i].1, wanted);
    let table = wizard_table(solutions.last().1, strategy, solutions.last().0 as nat);
    let top = summary_heading(strategy, wanted, solutions[0].1.store_names@.len())
        + summary_titles();
    lemma_in_pieces(n, all, i);
    assert(all(i) == part);
    lemma_in_sum(part, top, pieces(n, all));
    lemma_in_sum(part, top + pieces(n, all), "\n"@);
    lemma_in_sum(part, top + pieces(n, all) + "\n"@, table);
    lemma_self(table);
    lemma_in_sum(table, top + pieces(n, all) + "\n"@, table);
}

/// A solution's line tells its tolerance, its stores, how many of the wanted cards
/// it has and lacks, what they cost, and what each costs with shipping.
pub proof fn law_summary_lines(t: usize, sol: WizardSolution, wanted: nat)
    requires
        sol.skipped@.len() < wanted,
    ensures
        ({
            let found = (wanted - sol.skipped@.len()) as nat;
            let all = (sol.total_card_cost + sol.total_shipping) as nat;
            solution_line(t, sol, wanted) == "  "@ + right_aligned(decimal(t as nat), 9) + "  "@
                + right_aligned(decimal(sol.num_stores as nat), 6) + "  "@ + right_aligned(
                decimal(found) + "/"@ + decimal(wanted),
                5,
            ) + "  "@ + right_aligned(decimal(sol.skipped@.len()), 6) + "  "@ + right_aligned(
                price_text(sol.total_card_cost as nat),
                9,
            ) + "  "@ + right_aligned(price_text(sol.total_shipping as nat), 8) + "  "@
                + right_aligned(price_text(all), 10) + "  "@ + right_aligned(
                price_text((all as int / found as int) as nat),
                9,
            ) + "\n"@
        }),
{
}

/// The strategies go by their names with a capital letter.
pub proof fn law_strategy_labels(other: Seq<char>)
    ensures
        strategy_label("cheapest"@) == "Cheapest"@,
        strategy_label("simplest"@) == "Simplest"@,
        other != "cheapest"@ && other != "simplest"@ ==> strategy_label(other) == other,
{
    reveal_strlit("cheapest");
    reveal_strlit("simplest");
    assert("cheapest"@[0] == 'c' && "simplest"@[0] == 's');
}

} // verus!
