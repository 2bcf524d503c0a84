use cardfetch::cache::Cache;
use cardfetch::server::handlers::{answer_fetch, answer_wizard, FetchAnswer, WizardAnswer};
use cardfetch::server::jobs::{
    job_not_found, new_job_id, Job, JobKind, JobStatus, JobTable, StorePhase,
};
use cardfetch::server::requests::{
    active_stores, can_serve, check_cards, check_strategy, check_wizard, default_strategy,
    FetchRequest, RequestError, WizardRequest,
};
use cardfetch::server::results::{
    all_cache_pairs, cap_entries, group_fetched, split_cm_store, store_cache_key, CardResultEntry,
    FetchResultData, JobResult, WizardResponseData, WizardResultData,
};
use cardfetch::stores::StoreResult;
use cardfetch::wizard::model::Strategy;
use cardfetch::wizard::solution::WizardSolution;
use rand::rngs::StdRng;
use rand::SeedableRng;

fn listing(store: &str, card: &str, price: u32, url: &str) -> StoreResult {
    StoreResult {
        store_name: store.to_string(),
        card_name: card.to_string(),
        price,
        url: url.to_string(),
    }
}

fn strings(v: &[&str]) -> Vec<String> {
    v.iter().map(|s| s.to_string()).collect()
}

fn fetch_request(stores: &[&str], cache_only: bool) -> FetchRequest {
    FetchRequest {
        stores: strings(stores),
        cards: strings(&["Opt"]),
        cache_only,
        max_per_store: 0,
    }
}

fn wizard_request(tolerance: usize, exhaustive: bool) -> WizardRequest {
    WizardRequest {
        cards: strings(&["Opt"]),
        tolerance,
        eu_destination: false,
        strategy: default_strategy(),
        exhaustive,
    }
}

fn names() -> Vec<String> {
    strings(&["outland.no", "cardmarket.com"])
}

fn keys() -> Vec<Vec<String>> {
    vec![
        strings(&["outland.no"]),
        strings(&["cardmarket.com", "cardmarket-int.com"]),
    ]
}

fn message<T>(checked: Result<T, RequestError>) -> (u16, String) {
    match checked {
        Ok(_) => panic!("the request is accepted"),
        Err(e) => (e.status(), e.message()),
    }
}

#[test]
fn stores_are_named_with_their_category() {
    assert_eq!(
        split_cm_store("cardmarket-int-private.com: A"),
        ("A".to_string(), Some("p"))
    );
    assert_eq!(split_cm_store("cardmarket-int.com: A"), ("A".to_string(), Some("i")));
    assert_eq!(split_cm_store("cardmarket.com: A"), ("A".to_string(), Some("n")));
    assert_eq!(split_cm_store("outland.no"), ("outland.no".to_string(), None));
    let entry = CardResultEntry::from(listing("cardmarket.com: A", "Opt", 5, "/a"));
    assert_eq!((entry.store.as_str(), entry.price, entry.category), ("A", 5, Some("n")));
    for name in ["cardmarket.com: A", "cardmarket-int.com: B", "finn.no: C"] {
        let (seller, category) = split_cm_store(name);
        let full = match category {
            Some("p") => format!("cardmarket-int-private.com: {seller}"),
            Some("i") => format!("cardmarket-int.com: {seller}"),
            Some("n") => format!("cardmarket.com: {seller}"),
            _ => seller,
        };
        assert_eq!(full, name);
    }
}

#[test]
fn requests_are_checked() {
    assert_eq!(message(check_cards(&Vec::new())), (400, "No cards provided.".to_string()));
    let many: Vec<String> = (0..101).map(|i| format!("{i}")).collect();
    assert_eq!(
        message(check_cards(&many)),
        (400, "Too many cards: 101. Max is 100.".to_string())
    );
    let mut twice = many[..100].to_vec();
    twice.extend(many[..100].to_vec());
    match check_cards(&twice) {
        Ok(sorted) => assert_eq!(sorted.len(), 100),
        Err(_) => panic!("a hundred cards are allowed"),
    }
    assert_eq!(
        message(check_wizard(&wizard_request(6, false))),
        (400, "Tolerance too high: 6. Max is 5.".to_string())
    );
    assert!(check_wizard(&wizard_request(5, false)).is_ok());
    assert_eq!(
        message(check_strategy("best")),
        (
            400,
            "Unknown strategy 'best'. Use 'cheapest' or 'simplest'.".to_string()
        )
    );
    assert!(check_strategy("simplest").is_ok());
    assert_eq!(RequestError::NoCache.status(), 500);
    assert_eq!(
        RequestError::NoCache.message(),
        "Cache is not available (server started with --no-cache?)."
    );
    assert_eq!(
        RequestError::NothingRecognized.message(),
        "No recognized Magic card names found after resolution."
    );
    assert_eq!(
        RequestError::NoListings.message(),
        "No cached listings found. Run a /fetch first."
    );
    assert_eq!(RequestError::OutOfRange.status(), 500);
}

#[test]
fn filters_select_stores() {
    assert_eq!(active_stores(&names(), &Vec::new()), vec![0, 1]);
    assert_eq!(active_stores(&names(), &strings(&["MARKET"])), vec![1]);
    assert_eq!(active_stores(&names(), &strings(&["none"])), Vec::<usize>::new());
}

#[test]
fn pairs_go_store_by_store() {
    let pairs = all_cache_pairs(&strings(&["A", "B"]), &keys(), &vec![1, 0]);
    let flat: Vec<String> = pairs.iter().map(|p| format!("{}@{}", p.0, p.1)).collect();
    assert_eq!(
        flat,
        strings(&[
            "A@cardmarket.com",
            "B@cardmarket.com",
            "A@cardmarket-int.com",
            "B@cardmarket-int.com",
            "A@outland.no",
            "B@outland.no"
        ])
    );
}

#[test]
fn results_are_capped_per_endpoint() {
    let rs = vec![
        listing("cardmarket.com: A", "Opt", 30, "/1"),
        listing("outland.no", "Opt", 99, "/2"),
        listing("cardmarket.com: B", "Opt", 10, "/3"),
        listing("cardmarket.com: C", "Opt", 20, "/4"),
        listing("outland.no", "Bog", 1, "/5"),
    ];
    let groups = group_fetched(&rs, 2);
    assert_eq!(groups.len(), 2);
    assert_eq!(groups[0].card, "Opt");
    let prices: Vec<u32> = groups[0].entries.iter().map(|e| e.price).collect();
    assert_eq!(prices, vec![10, 20, 99]);
    let groups = group_fetched(&rs, 0);
    let prices: Vec<u32> = groups[0].entries.iter().map(|e| e.price).collect();
    assert_eq!(prices, vec![30, 10, 20, 99]);
    assert_eq!(store_cache_key("cardmarket-int.com: A"), "cardmarket-int.com");
    assert_eq!(store_cache_key("finn.no: A"), "finn.no: A");
    let entries = rs.into_iter().map(CardResultEntry::from).collect();
    let kept = cap_entries(entries, 1);
    assert_eq!((kept.len(), kept[0].price), (1, 1));
}

#[test]
fn a_fetch_is_answered_from_the_cache() {
    let mut cache = Cache::new();
    let mut jobs = JobTable::new();
    cache.store("Opt", "outland.no", &vec![listing("", "", 5, "/o")], 0);
    let cards = strings(&["Opt"]);
    let unknown = strings(&["Xyzzy"]);
    let req = fetch_request(&["outland"], false);
    let id = "id".to_string();
    match answer_fetch(&req, &cards, &unknown, Some(&cache), &names(), &keys(), &mut jobs, id, 10, 0) {
        FetchAnswer::Reply(data) => {
            assert_eq!(data.results.len(), 1);
            assert_eq!(data.results[0].entries[0].store, "outland.no");
            assert_eq!(data.unrecognized, unknown);
        }
        _ => panic!("everything is cached"),
    }
    let req = fetch_request(&[], true);
    let id = "id".to_string();
    match answer_fetch(&req, &cards, &unknown, Some(&cache), &names(), &keys(), &mut jobs, id, 10, 0) {
        FetchAnswer::Reply(data) => assert_eq!(data.results.len(), 1),
        _ => panic!("only the cache was asked"),
    }
    let id = "id".to_string();
    match answer_fetch(&req, &cards, &unknown, None, &names(), &keys(), &mut jobs, id, 10, 0) {
        FetchAnswer::Reply(data) => assert_eq!(data.results.len(), 0),
        _ => panic!("only the cache was asked"),
    }
    assert_eq!(jobs.jobs.len(), 0);
}

#[test]
fn one_fetch_runs_at_a_time() {
    let mut jobs = JobTable::new();
    let cards = strings(&["Opt", "Bog"]);
    let none = Vec::new();
    let req = fetch_request(&[], false);
    let id = "first".to_string();
    match answer_fetch(&req, &cards, &none, None, &names(), &keys(), &mut jobs, id, 0, 100) {
        FetchAnswer::Started(stores) => assert_eq!(stores, vec![0, 1]),
        _ => panic!("nothing else runs"),
    }
    assert_eq!(jobs.jobs[0].job.cards_total, 4);
    let id = "second".to_string();
    match answer_fetch(&req, &cards, &none, None, &names(), &keys(), &mut jobs, id, 0, 9999) {
        FetchAnswer::Busy(b) => {
            assert_eq!(
                b.message(),
                "Server busy: 1 fetch job(s) already running. Try again in a moment."
            );
            assert_eq!(b.existing_job_id(), "first");
        }
        _ => panic!("another fetch runs"),
    }
    assert!(jobs.reserve_slot(JobKind::Wizard, 9999).is_ok());
    jobs.jobs[0].job.fail("no");
    assert!(jobs.reserve_slot(JobKind::Fetch, 100 + 1799).is_ok());
    assert_eq!(jobs.jobs.len(), 1);
    assert!(jobs.reserve_slot(JobKind::Fetch, 100 + 1800).is_ok());
    assert_eq!(jobs.jobs.len(), 0);
}

#[test]
fn a_wizard_needs_listings() {
    let mut cache = Cache::new();
    let mut jobs = JobTable::new();
    let cards = strings(&["Opt"]);
    let req = wizard_request(1, true);
    let answer = answer_wizard(
        &req,
        &cards,
        &Vec::new(),
        Strategy::Cheapest,
        &mut cache,
        &mut jobs,
        "id".to_string(),
        0,
    );
    assert!(matches!(answer, Err(RequestError::NoListings)));
    cache.store("Opt", "outland.no", &vec![listing("", "", u32::MAX, "/o")], 0);
    cache.store("Bog", "outland.no", &vec![listing("", "", u32::MAX, "/b")], 0);
    let answer = answer_wizard(
        &req,
        &strings(&["Opt", "Bog"]),
        &Vec::new(),
        Strategy::Cheapest,
        &mut cache,
        &mut jobs,
        "id".to_string(),
        0,
    );
    assert!(matches!(answer, Ok(WizardAnswer::Started(_, _))));
}

#[test]
fn a_wizard_job_starts_or_past_runs_answer() {
    let mut cache = Cache::new();
    let mut jobs = JobTable::new();
    let cards = strings(&["Opt"]);
    cache.store("Opt", "outland.no", &vec![listing("", "", 500, "/o")], 0);
    let start = |cache: &mut Cache, jobs: &mut JobTable, exhaustive: bool| {
        answer_wizard(
            &wizard_request(1, exhaustive),
            &strings(&["Opt"]),
            &Vec::new(),
            Strategy::Cheapest,
            cache,
            jobs,
            "w".to_string(),
            0,
        )
    };
    match start(&mut cache, &mut jobs, true) {
        Ok(WizardAnswer::Started(input, candidates)) => {
            assert_eq!(input.store_names, strings(&["outland.no"]));
            assert_eq!(candidates, vec![0]);
            assert_eq!(jobs.jobs[0].job.tolerance_done, 0);
            assert_eq!(jobs.jobs[0].job.cards_done, 0);
            assert!(jobs.jobs[0].job.result.is_none());
        }
        _ => panic!("nothing else runs"),
    }
    assert_eq!(jobs.jobs[0].job.tolerance_total, 2);
    assert_eq!(jobs.jobs[0].job.combos_total, 1);
    assert!(matches!(start(&mut cache, &mut jobs, true), Ok(WizardAnswer::Busy(_))));
    let sol = WizardSolution {
        assignments: vec![(
            "Opt".to_string(),
            Some(("outland.no".to_string(), 500, "/o".to_string())),
        )],
        raw_choices: vec![Some(0)],
        store_names: strings(&["outland.no"]),
        card_subtotals: vec![500],
        shipping_costs: vec![5900],
        skipped: Vec::new(),
        total_card_cost: 500,
        total_shipping: 5900,
        num_stores: 1,
        score: 6400,
    };
    cache.save_wizard_solution("cheapest", 1, false, false, 1, &sol, 5);
    assert!(matches!(start(&mut cache, &mut jobs, true), Ok(WizardAnswer::Busy(_))));
    assert!(matches!(start(&mut cache, &mut jobs, false), Ok(WizardAnswer::Busy(_))));
    cache.save_wizard_solution("cheapest", 1, false, true, 2, &sol, 5);
    match start(&mut cache, &mut jobs, false) {
        Ok(WizardAnswer::Reply(data)) => {
            assert_eq!(data.results.len(), 2);
            assert_eq!(data.results[0].total_shipping, 5900);
            assert_eq!(data.results[0].stores[0].name, "outland.no");
        }
        _ => panic!("a past run answers"),
    }
    assert!(matches!(start(&mut cache, &mut jobs, true), Ok(WizardAnswer::Reply(_))));
    let runs = cache.get_cached_solutions("cheapest", 1, false);
    assert!(can_serve(&runs, 1));
    assert!(!can_serve(&runs, 2));
    assert!(!can_serve(&Vec::new(), 0));
    assert_eq!(cards.len(), 1);
}

#[test]
fn solutions_as_the_api_returns_them() {
    let sol = WizardSolution {
        assignments: vec![
            (
                "Opt".to_string(),
                Some(("cardmarket-int.com: A".to_string(), 5, "/o".to_string())),
            ),
            ("Bog".to_string(), None),
        ],
        raw_choices: vec![Some(0), None],
        store_names: strings(&["cardmarket-int.com: A"]),
        card_subtotals: vec![5],
        shipping_costs: vec![3750],
        skipped: strings(&["Bog"]),
        total_card_cost: 5,
        total_shipping: 3750,
        num_stores: 1,
        score: 0,
    };
    let data = WizardResponseData::from_solutions(&vec![sol]);
    let first = &data[0];
    assert_eq!(first.assignments[0].store, Some("A".to_string()));
    assert_eq!(first.assignments[0].category, Some("i"));
    assert_eq!(first.assignments[0].price, Some(5));
    assert_eq!(first.assignments[1].card, "Bog");
    assert!(first.assignments[1].store.is_none() && first.assignments[1].url.is_none());
    assert_eq!(first.skipped, strings(&["Bog"]));
    assert_eq!((first.stores[0].name.as_str(), first.stores[0].shipping), ("A", 3750));
    assert_eq!((first.total_card_cost, first.num_stores), (5, 1));
}

#[test]
fn a_fetch_job_reports_its_progress() {
    let mut job = Job::fetch(7, &names(), 2);
    assert!(job.status == JobStatus::Pending);
    job.start();
    job.begin_card(1, "Opt");
    let r = job.to_response(99);
    assert_eq!((r.status, r.kind), ("running", "fetch"));
    assert_eq!((r.current_store, r.current_card), ("cardmarket.com", "Opt"));
    assert_eq!((r.cards_done, r.cards_total, r.combos_done), (0, 4, 0));
    job.end_card(1, 3, false);
    job.end_card(1, 2, true);
    let r = job.to_response(0);
    assert_eq!(r.cards_done, 2);
    match r.store_statuses {
        Some(stores) => {
            assert!(stores[0].phase == StorePhase::Pending);
            assert_eq!(stores[1].phase.name(), "done");
            assert_eq!(stores[1].cards_found, 5);
        }
        None => panic!("a fetch has stores"),
    }
    job.finish_fetch(FetchResultData { results: Vec::new(), unrecognized: Vec::new() });
    let r = job.to_response(0);
    assert_eq!((r.status, r.cards_done), ("done", 4));
    assert!(matches!(r.result, Some(JobResult::Fetch(_))));
}

#[test]
fn a_wizard_job_has_two_phases() {
    let mut job = Job::wizard(0, 3, 9000);
    job.start();
    job.end_tolerance();
    assert_eq!(job.to_response(0).tolerance_done, 1);
    job.end_heuristic(WizardResultData { results: Vec::new(), unrecognized: Vec::new() });
    let r = job.to_response(1847);
    assert_eq!((r.tolerance_done, r.combos_done, r.combos_total), (0, 1847, 9000));
    assert!(r.partial_result.is_some() && r.result.is_none());
    assert!(r.store_statuses.is_none());
    job.finish_wizard(WizardResultData { results: Vec::new(), unrecognized: Vec::new() });
    let r = job.to_response(9000);
    assert_eq!((r.status, r.tolerance_done), ("done", 3));
    assert!(r.partial_result.is_none());
    let mut job = Job::wizard(0, 1, 0);
    job.fail("No valid solutions found.");
    let r = job.to_response(0);
    assert_eq!(r.status, "failed");
    assert_eq!(*r.error, Some("No valid solutions found.".to_string()));
}

#[test]
fn job_ids_are_short_and_random() {
    let mut rng = StdRng::seed_from_u64(1);
    let a = new_job_id(&mut rng);
    let b = new_job_id(&mut rng);
    assert_eq!(a.len(), 8);
    assert!(a.chars().all(|c| c.is_ascii_alphanumeric()));
    assert_ne!(a, b);
    let mut jobs = JobTable::new();
    jobs.insert(a.clone(), Job::wizard(0, 1, 0));
    assert_eq!(jobs.find(&a), Some(0));
    assert_eq!(jobs.find(&b), None);
    assert_eq!(job_not_found("x"), "Job 'x' not found.");
}
