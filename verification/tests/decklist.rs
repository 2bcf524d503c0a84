use cardfetch::cache::Cache;
use cardfetch::decklist::{
    find_unmatched, is_selected, order_texts, parse_decklist, single_card, sort_unique,
    strip_quantity, Order,
};
use cardfetch::percent::urlencoding;
use cardfetch::scryfall::{
    autocomplete_url, first_suggestion, name_to_cache, resolve_all, resolve_batch,
    resolve_with_cache, Resolution,
};

fn strings(v: &[&str]) -> Vec<String> {
    v.iter().map(|s| s.to_string()).collect()
}

#[test]
fn test_strip_quantity() {
    assert_eq!(strip_quantity("1 Snakeskin Veil"), "Snakeskin Veil");
    assert_eq!(strip_quantity("4 Lightning Bolt"), "Lightning Bolt");
    assert_eq!(strip_quantity("Snakeskin Veil"), "Snakeskin Veil");
    assert_eq!(strip_quantity("  2  Double Space  "), "Double Space");
    assert_eq!(strip_quantity("No Number Here"), "No Number Here");
}

#[test]
fn test_urlencoding() {
    assert_eq!(urlencoding("Lightning Bolt"), "Lightning%20Bolt");
    assert_eq!(urlencoding("Find // Finality"), "Find%20%2F%2F%20Finality");
    assert_eq!(
        urlencoding("Jace, the Mind Sculptor"),
        "Jace%2C%20the%20Mind%20Sculptor"
    );
    assert_eq!(urlencoding("Lim-Dûl's Vault"), "Lim-D%C3%BBl%27s%20Vault");
}

#[test]
fn urlencoding_goes_text_by_text() {
    for (a, b) in [("Fire", " // Ice"), ("", "é"), ("50%", "ß~")] {
        let both = urlencoding(&format!("{a}{b}"));
        assert_eq!(both, format!("{}{}", urlencoding(a), urlencoding(b)));
        assert!(both
            .chars()
            .all(|c| c.is_ascii_alphanumeric() || "-_.~%".contains(c)));
    }
    assert_eq!(urlencoding("50%"), "50%25");
    assert_eq!(urlencoding("€"), "%E2%82%AC");
}

#[test]
fn urlencoding_keeps_unreserved_characters() {
    assert_eq!(urlencoding("aZ09-_.~"), "aZ09-_.~");
    assert_eq!(urlencoding("<\n€"), "%3C%0A%E2%82%AC");
    assert_eq!(urlencoding(""), "");
}

#[test]
fn strip_quantity_needs_a_number_that_fits() {
    assert_eq!(strip_quantity("+3 Opt"), "Opt");
    assert_eq!(strip_quantity("4294967296 Opt"), "4294967296 Opt");
    assert_eq!(strip_quantity("7"), "7");
    assert_eq!(strip_quantity("   "), "");
}

#[test]
fn decklists_have_one_card_per_line() {
    let names = parse_decklist("1 Opt\r\n\n  \n2 Shock\nBog");
    assert_eq!(names, strings(&["Opt", "Shock", "Bog"]));
    assert_eq!(parse_decklist("").len(), 0);
    assert_eq!(single_card("  Opt "), strings(&["Opt"]));
}

#[test]
fn names_are_sorted_and_unique() {
    let sorted = sort_unique(&strings(&["b", "a", "b", "B", "ab", "é", ""]));
    assert_eq!(sorted, strings(&["", "B", "a", "ab", "b", "é"]));
    assert_eq!(sort_unique(&sorted), sorted);
    assert!(order_texts("a", "ab") == Order::Before);
    assert!(order_texts("a", "a") == Order::Same);
    assert!(order_texts("é", "z") == Order::After);
}

#[test]
fn stores_are_selected_by_part_of_the_name() {
    let names = strings(&["outland.no", "cardmarket.com"]);
    assert!(is_selected("Outland.no", &strings(&[" OUT "])));
    assert!(!is_selected("Outland.no", &strings(&["market"])));
    assert_eq!(find_unmatched(&names, &strings(&["out", "MARKET"])), None);
    assert_eq!(find_unmatched(&names, &strings(&["out", "nope", "x"])), Some(1));
    assert_eq!(find_unmatched(&names, &strings(&[])), None);
}

#[test]
fn names_resolve_or_stay_or_go() {
    let names = strings(&["Light", "Xyzzy", "Shok"]);
    let found = vec![
        Resolution::Found("Lightning Bolt".to_string()),
        Resolution::Unknown,
        Resolution::Failed,
    ];
    let (pairs, unknown) = resolve_batch(&names, &found);
    assert_eq!(
        pairs,
        vec![
            ("Light".to_string(), "Lightning Bolt".to_string()),
            ("Shok".to_string(), "Shok".to_string())
        ]
    );
    assert_eq!(unknown, strings(&["Xyzzy"]));
    match resolve_all(&names, &found) {
        Ok((sorted, unknown)) => {
            assert_eq!(sorted, strings(&["Lightning Bolt", "Shok"]));
            assert_eq!(unknown, strings(&["Xyzzy"]));
        }
        Err(_) => panic!("names were recognized"),
    }
}

#[test]
fn two_names_of_one_card_become_one() {
    let names = strings(&["Bolt", "Light"]);
    let found = vec![
        Resolution::Found("Lightning Bolt".to_string()),
        Resolution::Found("Lightning Bolt".to_string()),
    ];
    match resolve_all(&names, &found) {
        Ok((sorted, _)) => assert_eq!(sorted, strings(&["Lightning Bolt"])),
        Err(_) => panic!("names were recognized"),
    }
}

#[test]
fn no_recognized_name_is_an_error() {
    let names = strings(&["Xyzzy"]);
    match resolve_all(&names, &vec![Resolution::Unknown]) {
        Ok(_) => panic!("nothing was recognized"),
        Err(e) => assert_eq!(
            e.message(),
            "No recognized Magic card names found after resolution."
        ),
    }
}

#[test]
fn what_the_api_found_is_cached() {
    let mut cache = Cache::new();
    cache.store_scryfall("Opt", "Opt", 0);
    let names = strings(&["Bolt", "Opt", "Shok", "Xyzzy"]);
    let answers = vec![
        Resolution::Found("Lightning Bolt".to_string()),
        Resolution::Found("not read".to_string()),
        Resolution::Failed,
        Resolution::Unknown,
    ];
    match resolve_with_cache(&names, &answers, &mut cache, 10) {
        Ok((sorted, unknown)) => {
            assert_eq!(sorted, strings(&["Lightning Bolt", "Opt", "Shok"]));
            assert_eq!(unknown, strings(&["Xyzzy"]));
        }
        Err(_) => panic!("names were recognized"),
    }
    assert_eq!(cache.names.len(), 2);
    assert_eq!(cache.lookup_scryfall("Bolt", 10), Some("Lightning Bolt".to_string()));
    assert_eq!(cache.lookup_scryfall("Opt", 10), Some("Opt".to_string()));
    assert_eq!(cache.lookup_scryfall("Shok", 10), None);
    assert_eq!(cache.lookup_scryfall("Xyzzy", 10), None);
    assert!(resolve_with_cache(
        &strings(&["Xyzzy"]),
        &vec![Resolution::Unknown],
        &mut cache,
        10
    )
    .is_err());
    assert_eq!(name_to_cache(&Resolution::Found("A".to_string())), Some("A".to_string()));
    assert_eq!(name_to_cache(&Resolution::Failed), None);
    assert_eq!(name_to_cache(&Resolution::Unknown), None);
}

#[test]
fn the_first_suggestion_counts() {
    assert!(matches!(
        first_suggestion(&strings(&["A", "B"])),
        Resolution::Found(n) if n == "A"
    ));
    assert!(matches!(first_suggestion(&Vec::new()), Resolution::Unknown));
    assert_eq!(
        autocomplete_url("A B"),
        "https://api.scryfall.com/cards/autocomplete?q=A%20B"
    );
}
