use cardfetch::output::stores::render_store_table;
use cardfetch::output::sellers::render_cardmarket_section;
use cardfetch::output::wizard::{is_printable, join_names, render_wizard_summary, render_wizard_table};
use cardfetch::output::{
    abbreviate, format_price, format_price_u64, hyperlink, nothing_found, render_table,
};
use cardfetch::stores::StoreResult;
use cardfetch::wizard::solution::WizardSolution;

fn listing(store: &str, card: &str, price: u32, url: &str) -> StoreResult {
    StoreResult {
        store_name: store.to_string(),
        card_name: card.to_string(),
        price,
        url: url.to_string(),
    }
}

fn strings(v: &[&str]) -> Vec<String> {
    v.iter().map(|s| s.to_string()).collect()
}

#[test]
fn store_names_are_shortened() {
    assert_eq!(abbreviate("outland.no"), "Outland");
    assert_eq!(abbreviate("élan.com"), "Élan");
    assert_eq!(abbreviate("x.net"), "X");
    assert_eq!(abbreviate("y.org"), "Y");
    assert_eq!(abbreviate("plain"), "plain");
    assert_eq!(abbreviate(".no"), "");
    assert_eq!(abbreviate("cardmarket.com: A"), "CM: A");
    assert_eq!(abbreviate("cardmarket-int.com: A"), "CM-INT: A");
    assert_eq!(abbreviate("cardmarket-int-private.com: A"), "CM-PRIV: A");
}

#[test]
fn prices_are_in_kroner() {
    assert_eq!(format_price(1500), "15,00 kr");
    assert_eq!(format_price(5), "0,05 kr");
    assert_eq!(format_price(199), "1,99 kr");
    assert_eq!(format_price_u64(u64::MAX), "184467440737095516,15 kr");
}

#[test]
fn links_are_osc_8() {
    assert_eq!(hyperlink("u", "t"), "\x1b]8;;u\x1b\\t\x1b]8;;\x1b\\");
}

#[test]
fn the_store_table_marks_the_lowest_price() {
    let cards = strings(&["Opt", "Shock", "None"]);
    let rs = vec![
        listing("outland.no", "Opt", 1000, "/a"),
        listing("finn.no", "Opt", 900, "/b"),
        listing("outland.no", "Opt", 950, "/c"),
        listing("outland.no", "Shock", 100, "/d"),
    ];
    let table = render_store_table(&cards, &rs);
    let lines: Vec<&str> = table.split('\n').collect();
    assert_eq!(lines.len(), 7);
    assert_eq!(lines[0], "Card  | Outland | Finn   ");
    assert_eq!(lines[1], "-".repeat(25));
    assert_eq!(
        lines[2],
        "Opt   | \x1b]8;;/c\x1b\\9,50 kr\x1b]8;;\x1b\\ | \x1b]8;;/b\x1b\\\x1b[32m9,00 kr\x1b[0m\x1b]8;;\x1b\\"
    );
    assert_eq!(
        lines[3],
        "Shock | \x1b]8;;/d\x1b\\\x1b[32m1,00 kr\x1b[0m\x1b]8;;\x1b\\ | -      "
    );
    assert_eq!(lines[4], lines[1]);
    assert_eq!(lines[5], "Total | 10,50 kr | 9,00 kr");
    assert_eq!(lines[6], "");
}

#[test]
fn an_empty_table_is_no_table() {
    assert_eq!(render_store_table(&strings(&["Opt"]), &Vec::new()), "");
    assert_eq!(render_cardmarket_section(&strings(&["Opt"]), &Vec::new()), "");
    assert_eq!(
        nothing_found(&Vec::new()),
        Some("no results found for any card across any store")
    );
    assert_eq!(nothing_found(&vec![listing("a", "b", 1, "c")]), None);
}

#[test]
fn the_rule_is_at_most_two_hundred_wide() {
    let long = "x".repeat(300);
    let table = render_store_table(
        &vec![long.clone()],
        &vec![listing("a.no", &long, 1, "/")],
    );
    assert_eq!(table.split('\n').nth(1), Some("-".repeat(200).as_str()));
}

#[test]
fn remaining_slots_go_to_the_sellers_with_most_cards() {
    let cards = strings(&["Opt", "Shock"]);
    let rs = vec![
        listing("cardmarket.com: Amy", "Opt", 200, "/a"),
        listing("cardmarket.com: Bob", "Opt", 300, "/b"),
        listing("cardmarket-int.com: Pat", "Opt", 5, "/p1"),
        listing("cardmarket-int.com: Pat", "Shock", 5, "/p2"),
        listing("cardmarket-int.com: Quin", "Opt", 6, "/q1"),
        listing("cardmarket-int.com: Quin", "Shock", 6, "/q2"),
    ];
    let text = render_cardmarket_section(&cards, &rs);
    assert!(text.contains("  Norwegian sellers (2 total, showing 1)\n"));
    assert!(text.contains("  CM: Amy (1 card):\n"));
    assert!(text.contains("  ... and 1 more seller (1 cards, 3,00 kr total)\n"));
    assert!(text.contains("  Int Powersellers (2 total, showing 2)\n"));
    assert!(text.contains("  CM-INT: Quin (2 cards):\n"));
}

#[test]
fn sellers_are_ranked_within_their_category() {
    let cards = strings(&["Opt", "Shock"]);
    let rs = vec![
        listing("cardmarket.com: Zed", "Opt", 100, "/z"),
        listing("cardmarket.com: Amy", "Opt", 200, "/a1"),
        listing("cardmarket.com: Amy", "Opt", 150, "/a2"),
        listing("cardmarket.com: Bob", "Opt", 300, "/b"),
        listing("cardmarket.com: Bob", "Shock", 400, "/c"),
        listing("cardmarket.com: Cat", "Shock", 500, "/d"),
        listing("cardmarket-int-private.com: Pat", "Opt", 5, "/p"),
    ];
    let text = render_cardmarket_section(&cards, &rs);
    let lines: Vec<&str> = text.split('\n').collect();
    let rule = "=".repeat(50);
    assert_eq!(lines[0], "");
    assert_eq!(lines[1], rule);
    assert_eq!(lines[2], "  Norwegian sellers (4 total, showing 2)");
    assert_eq!(lines[3], rule);
    assert_eq!(lines[4], "  CM: Bob (2 cards):");
    assert_eq!(
        lines[5],
        "    Opt         \x1b]8;;/b\x1b\\3,00 kr\x1b]8;;\x1b\\"
    );
    assert_eq!(lines[7], format!("    {}", "-".repeat(26)));
    assert_eq!(lines[8], "    Subtotal: 7,00 kr");
    assert_eq!(lines[9], "  CM: Amy (1 card):");
    assert_eq!(
        lines[10],
        "    Opt         \x1b]8;;/a2\x1b\\1,50 kr\x1b]8;;\x1b\\"
    );
    assert_eq!(lines[13], "");
    assert_eq!(lines[14], "  ... and 2 more sellers (2 cards, 6,00 kr total)");
    assert_eq!(lines[17], "  Int Private sellers (1 total, showing 1)");
    assert!(text.ends_with("    Subtotal: 0,05 kr\n\n"));
}

#[test]
fn storefronts_come_before_sellers() {
    let cards = strings(&["Opt"]);
    let rs = vec![
        listing("cardmarket-int.com: A", "Opt", 100, "/z"),
        listing("finn.no", "Opt", 200, "/a"),
    ];
    let text = render_table(&cards, &rs);
    assert!(text.starts_with("Card | Finn   \n"));
    assert!(text.contains("  Int Powersellers (1 total, showing 1)\n"));
    assert!(!text.contains("Norwegian"));
}

fn sample() -> WizardSolution {
    WizardSolution {
        assignments: vec![
            (
                "Opt".to_string(),
                Some(("finn.no".to_string(), 150, "/o".to_string())),
            ),
            ("Shock".to_string(), None),
        ],
        raw_choices: vec![Some(0), None],
        store_names: vec!["finn.no".to_string()],
        card_subtotals: vec![150],
        shipping_costs: vec![5000],
        skipped: vec!["Shock".to_string()],
        total_card_cost: 150,
        total_shipping: 5000,
        num_stores: 1,
        score: 5150,
    }
}

#[test]
fn a_solution_is_shown_store_by_store() {
    let text = render_wizard_table(&sample(), "cheapest", 1);
    let banner = "\u{2550}".repeat(50);
    let rule = "\u{2500}".repeat(42);
    let expected = format!(
        "\n{banner}\n  Purchase Wizard \u{2014} Cheapest Strategy (tolerance: 1)\n{banner}\n{rule}\n  \
         1 store, 1/2 cards, 51,50 kr total\n{rule}\n\n  Finn (1 card):\n    \
         Opt         \x1b]8;;/o\x1b\\1,50 kr\x1b]8;;\x1b\\\n    {}\n    \
         Card subtotal: 1,50 kr  |  Shipping: 50,00 kr  |  Store total: 51,50 kr\n\n{}\n  \
         GRAND TOTAL: 51,50 kr  |  Card total: 1,50 kr  |  Shipping: 50,00 kr\n  \
         Skipped (1): Shock\n\n",
        "\u{2500}".repeat(26),
        "\u{2500}".repeat(60),
    );
    assert_eq!(text, expected);
}

#[test]
fn a_solution_without_stores_says_so() {
    let mut sol = sample();
    sol.store_names.clear();
    sol.card_subtotals.clear();
    sol.shipping_costs.clear();
    sol.num_stores = 0;
    assert!(is_printable(&sol));
    let text = render_wizard_table(&sol, "other", 0);
    assert!(text.contains("other Strategy"));
    assert!(text.ends_with("  (no stores used \u{2014} all cards skipped)\n\n"));
}

#[test]
fn the_summary_has_a_line_per_tolerance() {
    let text = render_wizard_summary(&vec![(0, sample()), (1, sample())], "simplest", 2);
    let lines: Vec<&str> = text.split('\n').collect();
    assert_eq!(lines[2], "  Purchase Wizard \u{2014} Simplest Strategy");
    assert_eq!(lines[3], "  2 wanted cards, 1 cached sellers");
    assert_eq!(
        lines[6],
        "  Tolerance  Stores  Found  Skipped      Cards  Shipping       Total   Per card"
    );
    assert_eq!(lines[7], format!("  {}", "\u{2500}".repeat(79)));
    assert_eq!(
        lines[8],
        "          0       1    1/2       1    1,50 kr  50,00 kr    51,50 kr   51,50 kr"
    );
    assert!(lines[9].starts_with("          1       1"));
    assert!(text.ends_with(&render_wizard_table(&sample(), "simplest", 1)));
}

#[test]
fn large_totals_are_printed_in_full() {
    let mut sol = sample();
    sol.total_card_cost = 8_000_000_000;
    let text = render_wizard_table(&sol, "cheapest", 0);
    assert!(text.contains("Card total: 80000000,00 kr"));
    assert!(text.contains("GRAND TOTAL: 80000050,00 kr"));
}

#[test]
fn totals_must_fit() {
    let mut sol = sample();
    sol.card_subtotals[0] = u64::MAX;
    assert!(!is_printable(&sol));
    let mut sol = sample();
    sol.total_card_cost = u64::MAX;
    assert!(!is_printable(&sol));
    let mut sol = sample();
    sol.assignments.clear();
    assert!(!is_printable(&sol));
}

#[test]
fn names_are_joined_with_commas() {
    assert_eq!(join_names(&strings(&["a", "b", "c"])), "a, b, c");
    assert_eq!(join_names(&strings(&["a"])), "a");
    assert_eq!(join_names(&Vec::new()), "");
}
