//! What the server does with a request once its card names are resolved.

use crate::cache::listings::{as_listings, newest, wanted};
use crate::cache::solutions::{past_runs, run_views, up_to_date, WizardHistory};
use crate::cache::{Cache, Tables};
use crate::html::copy_texts;
use crate::rows::views;
use crate::server::jobs::{
    busy, fresh_fetch, fresh_wizard, ids_of, kept, Busy, Job, JobKind, JobTable, MAX_ACTIVE_JOBS,
};
use crate::server::requests::{
    active, active_stores, can_serve, runs_serve, FetchRequest, RequestError, WizardRequest,
};
use crate::server::results::{
    all_cached, cached_tags, grouped, serve_cache_partial, store_pairs, try_serve_from_cache,
    FetchResultData, WizardResponseData, WizardResultData,
};
use crate::stores::{listings, Listing};
use crate::text::texts;
use crate::wizard::candidates::{candidate_stores, select_candidate_stores};
use crate::wizard::exhaustive::{
    combo_count, combos_fit, known_stores, most_stores, try_combo_total,
};
use crate::wizard::input::fits;
use crate::wizard::model::{Strategy, WizardConfig, WizardInput};
use crate::wizard::scored::fitted;
use crate::wizard::solution::{solution_from_choices, WizardSolution};
use vstd::prelude::*;

verus! {

/// The answer to a fetch request.
pub enum FetchAnswer {
    /// The cache has what is asked for.
    Reply(FetchResultData),
    /// Another fetch runs.
    Busy(Busy),
    /// A job was started on these stores.
    Started(Vec<usize>),
}

/// Every store selected is one of the stores.
proof fn lemma_active_bound(names: Seq<Seq<char>>, filters: Seq<Seq<char>>, k: int)
    requires
        0 <= k <= names.len(),
        names.len() <= usize::MAX,
    ensures
        active(names, filters, k).len() <= k,
        forall|i: int|
            0 <= i < active(names, filters, k).len() ==> (#[trigger] active(names, filters, k)[i])
                < k,
    decreases k,
{
    if k > 0 {
        lemma_active_bound(names, filters, k - 1);
    }
}

/// The jobs of a kind that still wait or run once old jobs are dropped.
pub open spec fn running(
    jobs: Seq<(Seq<char>, Job)>,
    clock: u64,
    kind: JobKind,
) -> Seq<(Seq<char>, Job)> {
    jobs.filter(kept(clock)).filter(busy(kind))
}

/// The answer says which jobs of the kind run.
pub open spec fn busy_with(
    b: Busy,
    before: Seq<(Seq<char>, Job)>,
    after: Seq<(Seq<char>, Job)>,
    clock: u64,
    kind: JobKind,
) -> bool {
    let run = running(before, clock, kind);
    &&& run.len() >= MAX_ACTIVE_JOBS
    &&& b.kind == kind
    &&& texts(b.ids@) == ids_of(run)
    &&& after == before.filter(kept(clock))
}

/// A job was added under the ID.
pub open spec fn added(
    before: Seq<(Seq<char>, Job)>,
    after: Seq<(Seq<char>, Job)>,
    clock: u64,
    kind: JobKind,
    id: Seq<char>,
) -> bool {
    &&& running(before, clock, kind).len() < MAX_ACTIVE_JOBS
    &&& after.len() > 0
    &&& after.drop_last() == before.filter(kept(clock))
    &&& after.last().0 == id
}

/// The stores that a fetch asks.
pub open spec fn asked_stores(req: &FetchRequest, names: Seq<Seq<char>>) -> Seq<usize> {
    active(names, texts(req.stores@), names.len() as int)
}

pub open spec fn names_at(names: Seq<Seq<char>>, stores: Seq<usize>) -> Seq<Seq<char>> {
    stores.map_values(|si: usize| names[si as int])
}

fn pick_names(names: &Vec<String>, stores: &Vec<usize>) -> (picked: Vec<String>)
    requires
        forall|i: int| 0 <= i < stores@.len() ==> (#[trigger] stores@[i]) < names@.len(),
    ensures
        texts(picked@) == names_at(texts(names@), stores@),
        picked@.len() == stores@.len(),
{
    let ghost all = names_at(texts(names@), stores@);
    let mut picked: Vec<String> = Vec::new();
    let mut i: usize = 0;
    assert(texts(picked@) =~= all.take(0));
    while i < stores.len()
        invariant
            all == names_at(texts(names@), stores@),
            forall|k: int| 0 <= k < stores@.len() ==> (#[trigger] stores@[k]) < names@.len(),
            i <= stores@.len(),
            picked@.len() == i,
            texts(picked@) == all.take(i as int),
        decreases stores@.len() - i,
    {
        let ghost p0 = picked@;
        picked.push(names[stores[i]].clone());
        proof {
            assert(texts(picked@) =~= texts(p0).push(names@[stores@[i as int] as int]@));
            assert(all.take(i + 1) =~= all.take(i as int).push(all[i as int]));
        }
        i += 1;
    }
    assert(all.take(i as int) =~= all);
    picked
}

/// Answers a fetch request from the cache where that suffices, else starts a job
/// unless another fetch runs.
pub fn answer_fetch(
    req: &FetchRequest,
    cards: &Vec<String>,
    unrecognized: &Vec<String>,
    cache: Option<&Cache>,
    names: &Vec<String>,
    keys: &Vec<Vec<String>>,
    jobs: &mut JobTable,
    id: String,
    now: i64,
    clock: u64,
) -> (answer: FetchAnswer)
    requires
        keys@.len() == names@.len(),
        cards@.len() * names@.len() <= usize::MAX,
    ensures
        ({
            let stores = asked_stores(req, texts(names@));
            let pairs = store_pairs(texts(cards@), keys@, stores);
            let served = match cache {
                Some(c) => req.cache_only || all_cached(c@, pairs, now),
                None => req.cache_only,
            };
            match answer {
                FetchAnswer::Reply(data) => {
                    &&& served
                    &&& views(data.results@) == match cache {
                        Some(c) => grouped(cached_tags(c@, pairs, now), req.max_per_store),
                        None => Seq::empty(),
                    }
                    &&& texts(data.unrecognized@) == texts(unrecognized@)
                    &&& final(jobs)@ == old(jobs)@
                },
                FetchAnswer::Busy(b) => !served && busy_with(
                    b,
                    old(jobs)@,
                    final(jobs)@,
                    clock,
                    JobKind::Fetch,
                ),
                FetchAnswer::Started(s) => {
                    &&& !served
                    &&& s@ == stores
                    &&& added(old(jobs)@, final(jobs)@, clock, JobKind::Fetch, id@)
                    &&& fresh_fetch(
                        final(jobs)@.last().1,
                        clock,
                        names_at(texts(names@), stores),
                        cards@.len() as int,
                    )
                },
            }
        }),
{
    let stores = active_stores(names, &req.stores);
    let ghost ns = texts(names@);
    let total: usize = names.len();
    proof {
        assert(ns.len() == total);
        lemma_active_bound(ns, texts(req.stores@), names@.len() as int);
    }
    if req.cache_only {
        let results = match cache {
            Some(c) => serve_cache_partial(c, cards, keys, &stores, req.max_per_store, now),
            None => Vec::new(),
        };
        proof {
            if cache is None {
                assert(views(results@) =~= Seq::empty());
            }
        }
        return FetchAnswer::Reply(
            FetchResultData { results, unrecognized: copy_texts(unrecognized) },
        );
    }
    if let Some(c) = cache {
        if let Some(results) = try_serve_from_cache(
            c,
            cards,
            keys,
            &stores,
            req.max_per_store,
            now,
        ) {
            return FetchAnswer::Reply(
                FetchResultData { results, unrecognized: copy_texts(unrecognized) },
            );
        }
    }
    match jobs.reserve_slot(JobKind::Fetch, clock) {
        Err(b) => FetchAnswer::Busy(b),
        Ok(_) => {
            let picked = pick_names(names, &stores);
            proof {
                let n = cards@.len();
                assert(n * stores@.len() <= n * names@.len()) by (nonlinear_arith)
                    requires
                        stores@.len() <= names@.len(),
                ;
            }
            let ghost before = jobs@;
            let job = Job::fetch(clock, &picked, cards.len());
            jobs.insert(id, job);
            assert(jobs@.drop_last() =~= before);
            FetchAnswer::Started(stores)
        },
    }
}

/// The answer to a wizard request.
pub enum WizardAnswer {
    /// Past runs have what is asked for.
    Reply(WizardResultData),
    /// Another wizard job runs.
    Busy(Busy),
    /// A job was started: what it searches, and the stores to combine.
    Started(WizardInput, Vec<usize>),
}

/// The tables once solutions on stale data are dropped.
pub open spec fn pruned(t: Tables) -> Tables {
    Tables { solutions: t.solutions.filter(up_to_date(newest(t.listings))), ..t }
}

/// The cached listings of the cards.
pub open spec fn listed(t: Tables, cards: Seq<Seq<char>>) -> Seq<Listing> {
    as_listings(t.listings.filter(wanted(cards)))
}

/// These are the solutions of past runs as the API returns them.
pub open spec fn replays(
    data: Seq<WizardResponseData>,
    t: Tables,
    cards: Seq<Seq<char>>,
    req: &WizardRequest,
    strategy: Strategy,
) -> bool {
    let runs = past_runs(t, strategy.label(), req.tolerance, req.eu_destination);
    let config = WizardConfig { strategy, tolerance: req.tolerance };
    &&& data.len() == runs.len()
    &&& exists|input: WizardInput| #[trigger]
        input.built_from(listed(t, cards), cards, req.eu_destination) && input.wf() && forall|i: int|
            0 <= i < runs.len() ==> replay(#[trigger] data[i], &input, &config, runs[i].0.raw_choices)
}

/// This is the solution for the choices as the API returns it.
pub open spec fn replay(
    data: WizardResponseData,
    input: &WizardInput,
    config: &WizardConfig,
    choices: Seq<Option<usize>>,
) -> bool {
    exists|sol: WizardSolution| #[trigger]
        sol.describes(input, config, fitted(input, choices)) && data.stands_for(&sol)
}

/// The choices of past runs as the API returns them.
fn replay_runs(
    runs: &Vec<(WizardHistory, bool)>,
    input: &WizardInput,
    config: &WizardConfig,
) -> (data: Vec<WizardResponseData>)
    requires
        input.wf(),
    ensures
        data@.len() == runs@.len(),
        forall|i: int|
            0 <= i < runs@.len() ==> replay(
                #[trigger] data@[i],
                input,
                config,
                run_views(runs@)[i].0.raw_choices,
            ),
{
    let mut data: Vec<WizardResponseData> = Vec::new();
    let mut i: usize = 0;
    while i < runs.len()
        invariant
            input.wf(),
            i <= runs@.len(),
            data@.len() == i,
            forall|k: int|
                0 <= k < i ==> replay(
                    #[trigger] data@[k],
                    input,
                    config,
                    run_views(runs@)[k].0.raw_choices,
                ),
        decreases runs@.len() - i,
    {
        let sol = solution_from_choices(&runs[i].0.raw_choices, input, config);
        proof {
            let ch = fitted(input, runs@[i as int].0.raw_choices@);
            assert(texts(sol.store_names@).len() == sol.store_names@.len());
            assert(sol.card_subtotals@.map_values(|v: u64| v as int).len()
                == sol.card_subtotals@.len());
            assert(sol.shipping_costs@.map_values(|v: u32| v as int).len()
                == sol.shipping_costs@.len());
            assert(run_views(runs@)[i as int].0.raw_choices == runs@[i as int].0.raw_choices@);
        }
        data.push(WizardResponseData::from_solution(&sol));
        i += 1;
    }
    data
}

/// Answers a wizard request from past runs where they suffice, else starts a job
/// unless another wizard job runs.
pub fn answer_wizard(
    req: &WizardRequest,
    cards: &Vec<String>,
    unrecognized: &Vec<String>,
    strategy: Strategy,
    cache: &mut Cache,
    jobs: &mut JobTable,
    id: String,
    clock: u64,
) -> (answer: Result<WizardAnswer, RequestError>)
    requires
        req.tolerance < usize::MAX,
    ensures
        final(cache)@ == pruned(old(cache)@),
        ({
            let t = pruned(old(cache)@);
            let names = texts(cards@);
            let rows = listed(t, names);
            let fit = fits(rows, names, req.eu_destination);
            let runs = past_runs(t, strategy.label(), req.tolerance, req.eu_destination);
            let served = runs_serve(runs, cards@.len() as int);
            match answer {
                Err(RequestError::NoListings) => rows.len() == 0 && final(jobs)@ == old(jobs)@,
                Err(RequestError::OutOfRange) => {
                    &&& rows.len() > 0
                    &&& !fit || (!served && exists|input: WizardInput| #[trigger]
                        input.built_from(rows, names, req.eu_destination) && !combos_fit(
                            candidate_stores(&input).len(),
                        ))
                    &&& final(jobs)@ == old(jobs)@
                },
                Err(_) => false,
                Ok(WizardAnswer::Reply(data)) => {
                    &&& rows.len() > 0 && fit && served
                    &&& replays(data.results@, t, names, req, strategy)
                    &&& texts(data.unrecognized@) == texts(unrecognized@)
                    &&& final(jobs)@ == old(jobs)@
                },
                Ok(WizardAnswer::Busy(b)) => {
                    &&& rows.len() > 0 && fit && !served
                    &&& busy_with(b, old(jobs)@, final(jobs)@, clock, JobKind::Wizard)
                },
                Ok(WizardAnswer::Started(input, candidates)) => {
                    &&& rows.len() > 0 && fit && !served
                    &&& input.wf() && input.built_from(rows, names, req.eu_destination)
                    &&& candidates@ == candidate_stores(&input)
                    &&& known_stores(&input, candidates@)
                    &&& added(old(jobs)@, final(jobs)@, clock, JobKind::Wizard, id@)
                    &&& fresh_wizard(
                        final(jobs)@.last().1,
                        clock,
                        req.tolerance + 1,
                        combo_count(candidates@.len(), most_stores(candidates@.len())) as int,
                    )
                },
            }
        }),
{
    cache.prune_stale_solutions();
    let ghost t = cache@;
    assert(t == pruned(old(cache)@));
    let found = cache.get_listings(cards);
    assert(listings(found@).len() == found@.len());
    if found.len() == 0 {
        return Err(RequestError::NoListings);
    }
    let runs = cache.get_cached_solutions(strategy.name(), req.tolerance, req.eu_destination);
    let served: bool = can_serve(&runs, cards.len());
    let input = match WizardInput::try_from_results_and_wants(&found, cards, req.eu_destination) {
        Some(input) => input,
        None => {
            return Err(RequestError::OutOfRange);
        },
    };
    if served {
        let config = WizardConfig { strategy, tolerance: req.tolerance };
        let results = replay_runs(&runs, &input, &config);
        proof {
            let names = texts(cards@);
            let past = past_runs(t, strategy.label(), req.tolerance, req.eu_destination);
            assert(run_views(runs@) == past);
            assert(past.len() == runs@.len());
            assert(listed(t, names) == listings(found@));
            assert(input.built_from(listed(t, names), names, req.eu_destination));
            assert forall|i: int| 0 <= i < past.len() implies replay(
                #[trigger] results@[i],
                &input,
                &config,
                past[i].0.raw_choices,
            ) by {}
            assert(replays(results@, t, names, req, strategy));
        }
        return Ok(
            WizardAnswer::Reply(
                WizardResultData { results, unrecognized: copy_texts(unrecognized) },
            ),
        );
    }
    let candidates = select_candidate_stores(&input);
    let combos: u64 = match try_combo_total(&candidates) {
        Some(n) => n,
        None => {
            return Err(RequestError::OutOfRange);
        },
    };
    match jobs.reserve_slot(JobKind::Wizard, clock) {
        Err(b) => Ok(WizardAnswer::Busy(b)),
        Ok(_) => {
            let ghost before = jobs@;
            let job = Job::wizard(clock, req.tolerance + 1, combos);
            jobs.insert(id, job);
            assert(jobs@.drop_last() =~= before);
            Ok(WizardAnswer::Started(input, candidates))
        },
    }
}

} // verus!
