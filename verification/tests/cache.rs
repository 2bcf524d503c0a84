use cardfetch::cache::{age_of, Cache, CacheLookup};
use cardfetch::search::{fetch_delay, plan_card, record_fetch, record_rescue, StoreCounts};
use cardfetch::stores::StoreResult;
use cardfetch::wizard::solution::WizardSolution;

const DAY: i64 = 86400;

fn listing(store: &str, card: &str, price: u32, url: &str) -> StoreResult {
    StoreResult {
        store_name: store.to_string(),
        card_name: card.to_string(),
        price,
        url: url.to_string(),
    }
}

fn hit(found: CacheLookup) -> Vec<(String, u32, String)> {
    match found {
        CacheLookup::Hit(rows) => rows
            .into_iter()
            .map(|r| (r.store_name, r.price, r.url))
            .collect(),
        _ => panic!("not a hit"),
    }
}

fn solution(choices: Vec<Option<usize>>, cards: u64, shipping: u64, score: u64) -> WizardSolution {
    WizardSolution {
        assignments: vec![
            ("A".to_string(), Some(("s".to_string(), 100, "u".to_string()))),
            ("B".to_string(), None),
        ],
        raw_choices: choices,
        store_names: vec!["s".to_string()],
        card_subtotals: vec![100],
        shipping_costs: vec![50],
        skipped: vec!["B".to_string()],
        total_card_cost: cards,
        total_shipping: shipping,
        num_stores: 1,
        score,
    }
}

#[test]
fn what_a_search_found_reads_back_for_a_week() {
    let mut cache = Cache::new();
    assert!(matches!(cache.lookup("Opt", "outland.no", 0), CacheLookup::Search));
    cache.store("Opt", "outland.no", &vec![listing("x", "y", 500, "/opt")], 1000);
    let expected = vec![("outland.no".to_string(), 500, "/opt".to_string())];
    assert_eq!(hit(cache.lookup("Opt", "outland.no", 1000)), expected);
    assert_eq!(hit(cache.lookup("Opt", "outland.no", 1000 + 7 * DAY - 1)), expected);
    assert!(matches!(
        cache.lookup("Opt", "outland.no", 1000 + 7 * DAY),
        CacheLookup::Search
    ));
    assert_eq!(hit(cache.lookup("Opt", "outland.no", 0)), expected);
    assert!(matches!(cache.lookup("Shock", "outland.no", 1000), CacheLookup::Search));
}

#[test]
fn an_empty_search_counts_for_a_day() {
    let mut cache = Cache::new();
    cache.store("Opt", "outland.no", &Vec::new(), 1000);
    assert!(matches!(cache.lookup("Opt", "outland.no", 1000), CacheLookup::Skip));
    assert!(matches!(
        cache.lookup("Opt", "outland.no", 1000 + DAY - 1),
        CacheLookup::Skip
    ));
    assert!(matches!(
        cache.lookup("Opt", "outland.no", 1000 + DAY),
        CacheLookup::Search
    ));
    cache.store("Opt", "outland.no", &vec![listing("", "", 1, "/o")], 2000);
    assert_eq!(hit(cache.lookup("Opt", "outland.no", 2000)).len(), 1);
    assert_eq!(cache.listings.len(), 1);
}

#[test]
fn sellers_answer_for_their_storefront() {
    let mut cache = Cache::new();
    cache.store("Opt", "cardmarket.com", &Vec::new(), 10);
    cache.store("Opt", "cardmarket.com: A", &vec![listing("", "", 7, "/a")], 20);
    assert_eq!(cache.listings.len(), 1);
    cache.store("Opt", "cardmarket.com: B", &vec![listing("", "", 9, "/b")], 20);
    assert_eq!(hit(cache.lookup("Opt", "cardmarket.com", 30)).len(), 2);
    assert_eq!(hit(cache.lookup("Opt", "CardMarket.com", 30)).len(), 2);
    assert!(matches!(
        cache.lookup("Opt", "cardmarket-int.com", 30),
        CacheLookup::Search
    ));
    assert!(matches!(cache.lookup("Opt", "cardmarket", 30), CacheLookup::Search));
}

#[test]
fn a_link_found_twice_counts_once() {
    let mut cache = Cache::new();
    cache.store(
        "Opt",
        "outland.no",
        &vec![
            listing("", "", 5, "/o"),
            listing("", "", 6, "/p"),
            listing("", "", 7, "/o"),
        ],
        0,
    );
    assert_eq!(
        hit(cache.lookup("Opt", "outland.no", 0)),
        vec![
            ("outland.no".to_string(), 6, "/p".to_string()),
            ("outland.no".to_string(), 7, "/o".to_string())
        ]
    );
}

#[test]
fn listings_for_the_wizard_are_in_stock() {
    let mut cache = Cache::new();
    cache.store("Opt", "a.no", &vec![listing("", "", 5, "/o")], 0);
    cache.store("Opt", "b.no", &Vec::new(), 0);
    cache.store("Bog", "a.no", &vec![listing("", "", 5, "/b")], 0);
    let found = cache.get_listings(&vec!["Opt".to_string()]);
    assert_eq!(found.len(), 1);
    assert_eq!(found[0].store_name, "a.no");
    assert_eq!(cache.get_listings(&Vec::new()).len(), 0);
}

#[test]
fn solutions_read_back_by_rank() {
    let mut cache = Cache::new();
    cache.save_wizard_solution(
        "cheapest",
        1,
        false,
        true,
        1,
        &solution(vec![Some(3), None], 900, 50, 0),
        5,
    );
    cache.save_wizard_solution(
        "cheapest",
        1,
        false,
        false,
        2,
        &solution(vec![Some(0), None], 100, 50, 0),
        5,
    );
    cache.save_wizard_solution(
        "cheapest",
        0,
        false,
        false,
        1,
        &solution(vec![None, None], 7, 0, 0),
        5,
    );
    let found = cache.get_cached_solutions("cheapest", 1, false);
    assert_eq!(found.len(), 2);
    assert_eq!(found[0].0.total_cost, 950);
    assert_eq!(found[0].0.raw_choices, vec![Some(3), None]);
    assert!(found[0].1);
    assert_eq!(found[1].0.raw_choices, vec![Some(0), None]);
    assert!(!found[1].1);
    let best = cache.load_best_solutions("cheapest", false);
    assert_eq!(best.len(), 2);
    assert_eq!(best[0].tolerance, 0);
    assert_eq!(best[1].total_cost, 150);
    assert_eq!(cache.get_cached_solutions("simplest", 1, false).len(), 0);
    assert_eq!(cache.get_cached_solutions("cheapest", 1, true).len(), 0);
    assert_eq!(cache.solutions[0].per_card_cost, 950);
    assert_eq!(cache.solutions[0].assignments_json, "[3,null]");
}

#[test]
fn at_most_three_past_runs_are_read() {
    let mut cache = Cache::new();
    for rank in [4usize, 2, 3, 1] {
        let s = solution(vec![None], 100 - rank as u64, 0, 0);
        cache.save_wizard_solution("cheapest", 0, false, rank == 3, rank, &s, 5);
    }
    let found = cache.get_cached_solutions("cheapest", 0, false);
    let read: Vec<(u64, bool)> = found.iter().map(|r| (r.0.total_cost, r.1)).collect();
    assert_eq!(read, vec![(99, false), (98, false), (97, true)]);
}

#[test]
fn a_search_reads_back_exactly() {
    let mut cache = Cache::new();
    cache.store("Opt", "a.no", &vec![listing("", "", 9, "/old")], 0);
    cache.store("Opt", "b.no", &vec![listing("", "", 8, "/b")], 0);
    let found = vec![listing("", "", 5, "/x"), listing("", "", 4, "/y")];
    cache.store("Opt", "a.no", &found, 10);
    assert_eq!(
        hit(cache.lookup("Opt", "a.no", 10 + 7 * DAY - 1)),
        vec![
            ("a.no".to_string(), 5, "/x".to_string()),
            ("a.no".to_string(), 4, "/y".to_string()),
        ]
    );
}

#[test]
fn a_solution_replaces_the_one_in_its_place() {
    let mut cache = Cache::new();
    for cost in [10u64, 20, 30] {
        cache.save_wizard_solution(
            "simplest",
            0,
            true,
            false,
            1,
            &solution(vec![None], cost, 0, 0),
            5,
        );
    }
    let found = cache.get_cached_solutions("simplest", 0, true);
    assert_eq!(found.len(), 1);
    assert_eq!(found[0].0.total_cost, 30);
    assert!(cache.solutions[0].is_current);
    cache.clear_current_solutions("cheapest", true);
    assert!(cache.solutions[0].is_current);
    cache.clear_current_solutions("simplest", true);
    assert!(!cache.solutions[0].is_current);
}

#[test]
fn choices_that_cannot_be_read_count_as_none() {
    let mut cache = Cache::new();
    cache.save_wizard_solution("cheapest", 0, false, false, 1, &solution(vec![None], 1, 1, 0), 0);
    cache.solutions[0].assignments_json = "not json".to_string();
    let found = cache.get_cached_solutions("cheapest", 0, false);
    assert_eq!(found[0].0.raw_choices.len(), 0);
}

#[test]
fn stale_solutions_go() {
    let mut cache = Cache::new();
    let s = solution(vec![None], 1, 1, 0);
    cache.save_wizard_solution("cheapest", 0, false, false, 1, &s, 10);
    cache.save_wizard_solution("cheapest", 1, false, false, 1, &s, 20);
    cache.prune_stale_solutions();
    assert_eq!(cache.solutions.len(), 2);
    cache.store("Opt", "a.no", &Vec::new(), 20);
    cache.prune_stale_solutions();
    assert_eq!(cache.solutions.len(), 1);
    assert_eq!(cache.solutions[0].tolerance, 1);
}

#[test]
fn solutions_with_blacklisted_sellers_go() {
    let mut cache = Cache::new();
    let s = solution(vec![None], 1, 1, 0);
    cache.save_wizard_solution("cheapest", 0, false, false, 1, &s, 10);
    cache.save_wizard_solution("cheapest", 0, true, false, 1, &s, 10);
    cache.store("Opt", "a.no", &vec![listing("", "", 1, "/o")], 0);
    assert_eq!(cache.prune_blacklisted_solutions(), 0);
    cache.store("Opt", "cardmarket-int.com: Itaca", &vec![listing("", "", 1, "/i")], 0);
    assert_eq!(cache.prune_blacklisted_solutions(), 1);
    assert!(cache.solutions[0].eu_destination);
    assert_eq!(cache.listings.len(), 1);
    assert_eq!(cache.prune_blacklisted_solutions(), 0);
}

#[test]
fn resolved_names_count_for_a_day() {
    let mut cache = Cache::new();
    cache.store_scryfall("light", "Lightning Helix", 0);
    cache.store_scryfall("light", "Lightning Bolt", 100);
    cache.store_scryfall("opt", "Opt", 100);
    assert_eq!(
        cache.lookup_scryfall("light", 100),
        Some("Lightning Bolt".to_string())
    );
    assert_eq!(cache.lookup_scryfall("light", 100 + DAY), None);
    assert_eq!(cache.lookup_scryfall("shock", 100), None);
    assert_eq!(cache.names.len(), 2);
}

#[test]
fn ages_do_not_go_below_nothing() {
    assert_eq!(age_of(5, 3), 2);
    assert_eq!(age_of(3, 5), 0);
    assert_eq!(age_of(i64::MAX, i64::MIN), u64::MAX);
}

#[test]
fn a_card_is_fetched_where_the_cache_has_no_answer() {
    let mut cache = Cache::new();
    cache.store("Opt", "a.no", &vec![listing("", "", 5, "/o")], 0);
    cache.store("Opt", "b.no", &Vec::new(), 0);
    let keys = vec!["a.no".to_string(), "b.no".to_string(), "c.no".to_string()];
    let plan = plan_card(Some(&cache), "Opt", &keys, 10);
    assert_eq!(plan.results.len(), 1);
    assert_eq!(plan.to_fetch, vec!["c.no".to_string()]);
    assert_eq!((plan.cached, plan.skipped), (1, 1));
    let plan = plan_card(None, "Opt", &keys, 10);
    assert_eq!(plan.to_fetch, keys);
}

#[test]
fn a_blocked_store_leaves_no_empty_search() {
    let mut cache = Cache::new();
    record_fetch(&mut cache, "Opt", "cardmarket.com", &Vec::new(), true, 0);
    assert_eq!(cache.listings.len(), 0);
    record_fetch(&mut cache, "Opt", "cardmarket.com", &Vec::new(), false, 0);
    assert_eq!(cache.listings.len(), 1);
    record_fetch(&mut cache, "Opt", "a.no", &Vec::new(), true, 0);
    assert_eq!(cache.listings.len(), 2);
}

#[test]
fn all_offers_of_a_seller_are_kept() {
    let found = vec![
        listing("cardmarket.com: A", "Opt", 5, "/1"),
        listing("cardmarket.com: B", "Opt", 6, "/2"),
        listing("cardmarket.com: A", "Opt", 7, "/3"),
    ];
    let mut cache = Cache::new();
    record_fetch(&mut cache, "Opt", "cardmarket.com", &found, false, 0);
    assert_eq!(hit(cache.lookup("Opt", "cardmarket.com: A", 0)).len(), 2);
    assert_eq!(hit(cache.lookup("Opt", "cardmarket.com", 0)).len(), 3);
    let mut other = Cache::new();
    record_rescue(&mut other, "Opt", "cardmarket.com", &found, 0);
    assert_eq!(hit(other.lookup("Opt", "cardmarket.com: A", 0)).len(), 2);
    assert_eq!(hit(other.lookup("Opt", "cardmarket.com", 0)).len(), 3);
    record_rescue(&mut other, "Bog", "cardmarket.com", &Vec::new(), 0);
    assert!(matches!(other.lookup("Bog", "cardmarket.com", 0), CacheLookup::Skip));
}

#[test]
fn counts_in_words() {
    let counts = StoreCounts { cached: 2, skipped: 0, fetched: 1, failed: 1 };
    assert_eq!(counts.summary(), "3 lookups, 2 cached, 1 fetched, 1 failed");
    assert_eq!(
        counts.line("outland.no"),
        "  outland.no                     3 lookups, 2 cached, 1 fetched, 1 failed"
    );
    assert_eq!(StoreCounts::none().summary(), "0 lookups");
    assert_eq!(fetch_delay(599), 499);
    assert_eq!(fetch_delay(300), 200);
}
