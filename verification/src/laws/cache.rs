//! What the cache answers, and what a search leaves in it.

use crate::cache::{age, Tables};
use crate::cache::listings::{
    answer, answering, empty_row, found_row, goes_by, looked_up, newest, put, put_all, ships_here,
    stocked, survives, unlike, wanted, with_search, Answer, Entry,
};
use crate::cache::solutions::{
    best_runs, by_cost, by_place, first_per_tolerance, for_run, for_tolerance, past_of, past_run,
    past_runs, retired, up_to_date, Past, Record,
};
use crate::order::{law_stable_sorted, stable_sorted};
use crate::search::{answer_for, hits, is_hit, is_search, is_skip, with_fetch, with_sellers};
use crate::shipping::{blacklisted, seller_of};
use crate::stores::Listing;
use crate::stores::cardmarket::{rows_of_seller, seller_names};
use crate::text::{ascii_lower, same_ignoring_case, starts_with};
use vstd::prelude::*;

verus! {

/// The age of something in seconds; what lies ahead is new.
pub proof fn law_age(now: i64, at: i64)
    ensures
        now >= at ==> age(now, at) == now - at,
        now < at ==> age(now, at) == 0,
{
}

/// The newest of the rows is one of them, and none is newer.
pub proof fn law_newest(rows: Seq<Entry>)
    ensures
        newest(rows) is None <==> rows.len() == 0,
        newest(rows) matches Some(at) ==> {
            &&& forall|i: int| 0 <= i < rows.len() ==> (#[trigger] rows[i]).fetched_at <= at
            &&& exists|i: int| 0 <= i < rows.len() && (#[trigger] rows[i]).fetched_at == at
        },
    decreases rows.len(),
{
    if rows.len() > 0 {
        let rest = rows.drop_last();
        law_newest(rest);
        assert(rows[rows.len() - 1] == rows.last());
        if let Some(t) = newest(rest) {
            let i = choose|i: int| 0 <= i < rest.len() && (#[trigger] rest[i]).fetched_at == t;
            assert(rows[i].fetched_at == t);
            assert forall|k: int| 0 <= k < rows.len() implies (#[trigger] rows[k]).fetched_at
                <= newest(rows)->0 by {
                if k < rest.len() {
                    assert(rest[k] == rows[k]);
                }
            }
        } else {
            assert(rows.len() == 1);
        }
    }
}

/// Listings count for seven days and an empty search for one; then the store is
/// searched again.  A hit gives all the listings in stock, in order.
pub proof fn law_freshness(rows: Seq<Entry>, now: i64, at: i64)
    requires
        forall|i: int| 0 <= i < rows.len() ==> (#[trigger] rows[i]).fetched_at <= at <= now,
        exists|i: int| 0 <= i < rows.len() && (#[trigger] rows[i]).fetched_at == at,
    ensures
        ({
            let here = rows.filter(|r: Entry| r.in_stock);
            &&& here.len() == 0 && now - at < 86400 ==> answer(rows, now) is Skip
            &&& here.len() == 0 && now - at >= 86400 ==> answer(rows, now) is Search
            &&& here.len() > 0 && now - at >= 604800 ==> answer(rows, now) is Search
            &&& here.len() > 0 && now - at < 604800 ==> (answer(rows, now) matches Answer::Hit(
                found,
            ) && found.len() == here.len() && forall|i: int|
                0 <= i < here.len() ==> (#[trigger] found[i]) == (Listing {
                    store: here[i].store,
                    card: here[i].card,
                    price: here[i].price,
                    url: here[i].url,
                }))
        }),
        answer(Seq::empty(), now) is Search,
{
    law_newest(rows);
    let here = rows.filter(|r: Entry| r.in_stock);
    assert(here =~= rows.filter(stocked())) by {
        assert((|r: Entry| r.in_stock) =~= stocked());
    }
    let i = choose|i: int| 0 <= i < rows.len() && (#[trigger] rows[i]).fetched_at == at;
    assert(rows[i].fetched_at <= newest(rows)->0);
    assert(newest(rows) == Some(at));
    law_age(now, at);
}

/// A key answers for the store of that name and for its sellers, whatever the case
/// of the key's letters, and for no other store.
pub proof fn law_keys_answer_for_sellers(key: Seq<char>, name: Seq<char>, store: Seq<char>)
    ensures
        goes_by(key, key),
        goes_by(key + ": "@ + name, key),
        goes_by(store, key) && store != key ==> store.len() > key.len() && store[key.len() as int]
            == ':' && same_ignoring_case(store.take(key.len() as int), key),
{
    reveal_strlit(": ");
    reveal_strlit(":");
    let s = key + ": "@ + name;
    assert(s.take(key.len() as int + 1) =~= key + ":"@);
    if goes_by(store, key) && store != key {
        let a = store.take(key.len() as int + 1);
        let b = key + ":"@;
        let x = ascii_lower(a);
        let y = ascii_lower(b);
        assert(x == y);
        assert(x[key.len() as int] == y[key.len() as int]);
        let c = store.take(key.len() as int);
        assert forall|i: int| 0 <= i < key.len() implies ascii_lower(c)[i] == ascii_lower(key)[i] by {
            assert(x[i] == y[i]);
            assert(a[i] == c[i] && b[i] == key[i]);
        }
        assert(ascii_lower(c).len() == key.len() && ascii_lower(key).len() == key.len());
        assert(ascii_lower(c) =~= ascii_lower(key));
        crate::laws::text::law_same_ignoring_case(a, b);
        assert(crate::laws::text::same_letter(a[key.len() as int], b[key.len() as int]));
    }
}

/// A row answers for its own card only; the wizard sees the rows in stock of the
/// cards that it wants.
pub proof fn law_rows_by_card(row: Entry, card: Seq<char>, key: Seq<char>, cards: Seq<Seq<char>>)
    ensures
        answering(card, key)(row) <==> row.card == card && goes_by(row.store, key),
        wanted(cards)(row) <==> row.in_stock && cards.contains(row.card),
        ships_here()(row) <==> !blacklisted(seller_of(row.store)),
{
}

/// Every key is looked up: its results are served if it has some, it is passed over
/// if it is known to have none, and else it is fetched.
pub proof fn law_plan(
    cache: Option<Tables>,
    card: Seq<char>,
    keys: Seq<Seq<char>>,
    key: Seq<char>,
    now: i64,
)
    ensures
        hits(cache, card, Seq::empty(), now).len() == 0,
        answer_for(cache, card, key, now) matches Answer::Hit(found) ==> hits(
            cache,
            card,
            keys.push(key),
            now,
        ) == hits(cache, card, keys, now) + found,
        !(answer_for(cache, card, key, now) is Hit) ==> hits(cache, card, keys.push(key), now)
            == hits(cache, card, keys, now),
        is_search(cache, card, now)(key) <==> answer_for(cache, card, key, now) is Search,
        is_hit(cache, card, now)(key) <==> answer_for(cache, card, key, now) is Hit,
        is_skip(cache, card, now)(key) <==> answer_for(cache, card, key, now) is Skip,
        cache is None ==> answer_for(cache, card, key, now) is Search,
        cache matches Some(t) ==> answer_for(cache, card, key, now) == looked_up(
            t,
            card,
            key,
            now,
        ),
{
    assert(keys.push(key).drop_last() =~= keys);
}

proof fn lemma_put_keeps(rows: Seq<Entry>, new: Entry, row: Entry)
    requires
        rows.contains(row),
        row.store != new.store,
    ensures
        put(rows, new).contains(row),
{
    let i = choose|i: int| 0 <= i < rows.len() && rows[i] == row;
    let kept = rows.filter(unlike(new));
    rows.lemma_filter_contains(unlike(new), i);
    let k = choose|k: int| 0 <= k < kept.len() && kept[k] == row;
    assert(put(rows, new)[k] == row);
}

proof fn lemma_put_all_keeps(
    rows: Seq<Entry>,
    card: Seq<char>,
    store: Seq<char>,
    found: Seq<Listing>,
    now: i64,
    row: Entry,
)
    requires
        rows.contains(row),
        row.store != store,
    ensures
        put_all(rows, card, store, found, now).contains(row),
    decreases found.len(),
{
    if found.len() > 0 {
        lemma_put_all_keeps(rows, card, store, found.drop_last(), now, row);
        lemma_put_keeps(
            put_all(rows, card, store, found.drop_last(), now),
            found_row(card, store, found.last(), now),
            row,
        );
    }
}

/// What a search of one store found leaves the listings of other stores.
proof fn lemma_search_keeps(
    rows: Seq<Entry>,
    card: Seq<char>,
    store: Seq<char>,
    found: Seq<Listing>,
    now: i64,
    row: Entry,
)
    requires
        rows.contains(row),
        row.store != store,
        row.in_stock,
    ensures
        with_search(rows, card, store, found, now).contains(row),
{
    let i = choose|i: int| 0 <= i < rows.len() && rows[i] == row;
    let kept = rows.filter(survives(card, store));
    rows.lemma_filter_contains(survives(card, store), i);
    if found.len() == 0 {
        let k = choose|k: int| 0 <= k < kept.len() && kept[k] == row;
        assert(kept.push(empty_row(card, store, now))[k] == row);
    } else {
        lemma_put_all_keeps(kept, card, store, found, now, row);
    }
}

proof fn lemma_put_all_has(
    rows: Seq<Entry>,
    card: Seq<char>,
    store: Seq<char>,
    found: Seq<Listing>,
    now: i64,
    i: int,
)
    requires
        0 <= i < found.len(),
        forall|j: int| i < j < found.len() ==> (#[trigger] found[j]).url != found[i].url,
    ensures
        put_all(rows, card, store, found, now).contains(found_row(card, store, found[i], now)),
    decreases found.len(),
{
    let row = found_row(card, store, found[i], now);
    let new = found_row(card, store, found.last(), now);
    let rest = put_all(rows, card, store, found.drop_last(), now);
    let kept = rest.filter(unlike(new));
    if i == found.len() - 1 {
        assert(kept.push(new)[kept.len() as int] == new);
    } else {
        let init = found.drop_last();
        assert forall|j: int| i < j < init.len() implies (#[trigger] init[j]).url != init[i].url by {
            assert(found[j].url != found[i].url);
        }
        lemma_put_all_has(rows, card, store, init, now, i);
        let k = choose|k: int| 0 <= k < rest.len() && rest[k] == row;
        assert(found[found.len() - 1].url != found[i].url);
        rest.lemma_filter_contains(unlike(new), k);
        let m = choose|m: int| 0 <= m < kept.len() && kept[m] == row;
        assert(kept.push(new)[m] == row);
    }
}

proof fn lemma_sellers_recorded(
    rows: Seq<Entry>,
    card: Seq<char>,
    found: Seq<Listing>,
    sellers: Seq<Seq<char>>,
    now: i64,
    r: Listing,
    at: int,
)
    requires
        sellers.contains(r.store),
        sellers.no_duplicates(),
        0 <= at < rows_of_seller(found, r.store).len(),
        rows_of_seller(found, r.store)[at] == r,
        forall|j: int|
            at < j < rows_of_seller(found, r.store).len() ==> (#[trigger] rows_of_seller(
                found,
                r.store,
            )[j]).url != r.url,
    ensures
        with_sellers(rows, card, found, sellers, now).contains(found_row(card, r.store, r, now)),
    decreases sellers.len(),
{
    let row = found_row(card, r.store, r, now);
    let rest = sellers.drop_last();
    let last = sellers.last();
    let before = with_sellers(rows, card, found, rest, now);
    if last == r.store {
        lemma_put_all_has(
            before.filter(survives(card, last)),
            card,
            last,
            rows_of_seller(found, last),
            now,
            at,
        );
    } else {
        let i = choose|i: int| 0 <= i < sellers.len() && sellers[i] == r.store;
        assert(rest[i] == r.store);
        lemma_sellers_recorded(rows, card, found, rest, now, r, at);
        lemma_search_keeps(before, card, last, rows_of_seller(found, last), now, row);
    }
}

/// Every result of a fetch, the last one for each seller's link, is recorded under its
/// seller, in stock and as of now.
pub proof fn law_fetched_results_are_recorded(
    rows: Seq<Entry>,
    card: Seq<char>,
    key: Seq<char>,
    found: Seq<Listing>,
    blocked: bool,
    now: i64,
    i: int,
)
    requires
        0 <= i < found.len(),
        forall|j: int|
            i < j < found.len() ==> (#[trigger] found[j]).store != found[i].store || found[j].url
                != found[i].url,
    ensures
        with_fetch(rows, card, key, found, blocked, now).contains(
            (Entry {
                card,
                store: found[i].store,
                price: found[i].price,
                url: found[i].url,
                in_stock: true,
                fetched_at: now,
            }),
        ),
{
    let r = found[i];
    crate::laws::cardmarket::law_groups_by_seller(found, r.store);
    assert(seller_names(found).contains(r.store));
    let at = lemma_row_of_seller(found, r.store, i);
    lemma_sellers_recorded(rows, card, found, seller_names(found), now, r, at);
}

/// Where a result stands among those of its seller.
proof fn lemma_row_of_seller(found: Seq<Listing>, store: Seq<char>, i: int) -> (at: int)
    requires
        0 <= i < found.len(),
        found[i].store == store,
        forall|j: int|
            i < j < found.len() ==> (#[trigger] found[j]).store != store || found[j].url
                != found[i].url,
    ensures
        0 <= at < rows_of_seller(found, store).len(),
        rows_of_seller(found, store)[at] == found[i],
        forall|j: int|
            at < j < rows_of_seller(found, store).len() ==> (#[trigger] rows_of_seller(
                found,
                store,
            )[j]).url != found[i].url,
    decreases found.len(),
{
    let init = found.drop_last();
    let rest = rows_of_seller(init, store);
    if i == found.len() - 1 {
        rest.len() as int
    } else {
        assert forall|j: int| i < j < init.len() implies (#[trigger] init[j]).store != store
            || init[j].url != init[i].url by {
            assert(found[j].store != store || found[j].url != found[i].url);
        }
        let at = lemma_row_of_seller(init, store, i);
        assert(found[found.len() - 1].store != store || found[found.len() - 1].url
            != found[i].url);
        at
    }
}

/// A fetch without results is recorded as an empty search of the key, unless the
/// store is CardMarket and was given up: then nothing changes.
pub proof fn law_empty_fetches(
    rows: Seq<Entry>,
    card: Seq<char>,
    key: Seq<char>,
    blocked: bool,
    now: i64,
)
    ensures
        starts_with(key, "cardmarket"@) && blocked ==> with_fetch(
            rows,
            card,
            key,
            Seq::empty(),
            blocked,
            now,
        ) == rows,
        !starts_with(key, "cardmarket"@) || !blocked ==> with_fetch(
            rows,
            card,
            key,
            Seq::empty(),
            blocked,
            now,
        ).contains(
            (Entry {
                card,
                store: key,
                price: 0,
                url: Seq::empty(),
                in_stock: false,
                fetched_at: now,
            }),
        ),
{
    let kept = rows.filter(survives(card, key));
    let all = kept.push(empty_row(card, key, now));
    assert(all[kept.len() as int] == empty_row(card, key, now));
}

/// A search replaces what the store had for the card, and leaves every other card.
pub proof fn law_search_replaces(row: Entry, card: Seq<char>, store: Seq<char>)
    ensures
        row.card == card && row.store == store ==> !survives(card, store)(row),
        row.card != card ==> survives(card, store)(row),
        row.store != store && row.in_stock ==> survives(card, store)(row),
{
}

/// The best runs hold the cheapest past run for every tolerance, each once.
pub proof fn law_best_runs(t: Tables, strategy: Seq<char>, eu: bool, i: int)
    ensures
        ({
            let best = best_runs(t, strategy, eu);
            &&& forall|a: int, b: int|
                0 <= a < b < best.len() ==> (#[trigger] best[a]).tolerance != (
                #[trigger] best[b]).tolerance
            &&& forall|a: int| 0 <= a < best.len() ==> #[trigger] comes_from(t, strategy, eu, best[a])
            &&& 0 <= i < t.solutions.len() && t.solutions[i].strategy == strategy
                && t.solutions[i].eu_destination == eu ==> exists|a: int|
                0 <= a < best.len() && (#[trigger] best[a]).tolerance == t.solutions[i].tolerance
                    && best[a].total_cost <= t.solutions[i].total_cost
        }),
{
    let p = for_run(strategy, eu);
    let found = t.solutions.filter(p);
    let sorted = stable_sorted(found, by_cost());
    let runs = sorted.map_values(|row: Record| past_of(row));
    law_stable_sorted(found, by_cost());
    lemma_first_per_tolerance(runs);
    let best = best_runs(t, strategy, eu);
    assert forall|a: int| 0 <= a < best.len() implies #[trigger] comes_from(
        t,
        strategy,
        eu,
        best[a],
    ) by {
        assert(best.contains(best[a]));
        let k = choose|k: int| 0 <= k < runs.len() && runs[k] == best[a];
        assert(sorted.contains(sorted[k]));
        assert(found.contains(sorted[k]));
        let f = choose|f: int| 0 <= f < found.len() && found[f] == sorted[k];
        t.solutions.lemma_filter_pred(p, f);
        t.solutions.lemma_filter_contains_rev(p, sorted[k]);
        let j = choose|j: int| 0 <= j < t.solutions.len() && t.solutions[j] == sorted[k];
        assert(past_of(t.solutions[j]) == best[a]);
    }
    if 0 <= i < t.solutions.len() && t.solutions[i].strategy == strategy
        && t.solutions[i].eu_destination == eu {
        t.solutions.lemma_filter_contains(p, i);
        assert(sorted.contains(t.solutions[i]));
        let k = choose|k: int| 0 <= k < sorted.len() && sorted[k] == t.solutions[i];
        lemma_first_is_best(runs, k);
        let (a, m) = choose|a: int, m: int|
            0 <= a < best.len() && 0 <= m <= k && #[trigger] best[a] == #[trigger] runs[m]
                && best[a].tolerance == runs[k].tolerance;
        assert(by_cost()(sorted[m]) <= by_cost()(sorted[k]));
        assert(runs[m].total_cost == sorted[m].total_cost);
    }
}

/// The run is that of a record for the strategy and destination.
pub open spec fn comes_from(t: Tables, strategy: Seq<char>, eu: bool, run: Past) -> bool {
    exists|j: int|
        0 <= j < t.solutions.len() && (#[trigger] t.solutions[j]).strategy == strategy
            && t.solutions[j].eu_destination == eu && past_of(t.solutions[j]) == run
}

proof fn lemma_first_per_tolerance(runs: Seq<Past>)
    ensures
        ({
            let best = first_per_tolerance(runs);
            &&& forall|a: int, b: int|
                0 <= a < b < best.len() ==> (#[trigger] best[a]).tolerance != (
                #[trigger] best[b]).tolerance
            &&& forall|y: Past| #[trigger] best.contains(y) ==> runs.contains(y)
        }),
    decreases runs.len(),
{
    if runs.len() > 0 {
        let init = runs.drop_last();
        lemma_first_per_tolerance(init);
        let rest = first_per_tolerance(init);
        let best = first_per_tolerance(runs);
        assert forall|y: Past| #[trigger] best.contains(y) implies runs.contains(y) by {
            let a = choose|a: int| 0 <= a < best.len() && best[a] == y;
            if a < rest.len() {
                assert(rest[a] == y);
                assert(rest.contains(y));
                let k = choose|k: int| 0 <= k < init.len() && init[k] == y;
                assert(runs[k] == y);
            } else {
                assert(runs[runs.len() - 1] == y);
            }
        }
    }
}

proof fn lemma_first_is_best(runs: Seq<Past>, k: int)
    requires
        0 <= k < runs.len(),
    ensures
        exists|a: int, m: int|
            0 <= a < first_per_tolerance(runs).len() && 0 <= m <= k && #[trigger] first_per_tolerance(
                runs,
            )[a] == #[trigger] runs[m] && first_per_tolerance(runs)[a].tolerance
                == runs[k].tolerance,
    decreases runs.len(),
{
    let init = runs.drop_last();
    let rest = first_per_tolerance(init);
    let best = first_per_tolerance(runs);
    if k < init.len() {
        lemma_first_is_best(init, k);
        let (a, m) = choose|a: int, m: int|
            0 <= a < rest.len() && 0 <= m <= k && #[trigger] rest[a] == #[trigger] init[m]
                && rest[a].tolerance == init[k].tolerance;
        assert(best[a] == rest[a] && runs[m] == init[m]);
    } else if exists|i: int|
        0 <= i < rest.len() && #[trigger] rest[i].tolerance == runs.last().tolerance {
        let i = choose|i: int|
            0 <= i < rest.len() && #[trigger] rest[i].tolerance == runs.last().tolerance;
        lemma_first_per_tolerance(init);
        assert(rest.contains(rest[i]));
        let m = choose|m: int| 0 <= m < init.len() && init[m] == rest[i];
        assert(best[i] == rest[i] && runs[m] == init[m]);
    } else {
        assert(best[rest.len() as int] == runs[k]);
    }
}

/// The past runs are up to three records of exactly these parameters, the best
/// ranks first.
pub proof fn law_past_runs(t: Tables, strategy: Seq<char>, tolerance: usize, eu: bool)
    ensures
        ({
            let runs = past_runs(t, strategy, tolerance, eu);
            let found = t.solutions.filter(
                |r: Record|
                    r.strategy == strategy && r.tolerance == tolerance && r.eu_destination == eu,
            );
            &&& runs.len() == if found.len() > 3 {
                3
            } else {
                found.len()
            }
            &&& exists|order: Seq<Record>| #[trigger]
                order.to_multiset() == found.to_multiset() && (forall|a: int, b: int|
                    0 <= a <= b < order.len() ==> (#[trigger] order[a]).rank <= (
                    #[trigger] order[b]).rank) && (forall|a: int|
                    0 <= a < runs.len() ==> #[trigger] runs[a] == past_run(order[a]))
        }),
{
    let p = for_tolerance(strategy, tolerance, eu);
    let q = |r: Record| r.strategy == strategy && r.tolerance == tolerance && r.eu_destination == eu;
    let found = t.solutions.filter(p);
    assert(p =~= q);
    law_stable_sorted(found, by_place());
    let order = stable_sorted(found, by_place());
    assert forall|a: int, b: int| 0 <= a <= b < order.len() implies (#[trigger] order[a]).rank <= (
    #[trigger] order[b]).rank by {
        assert(by_place()(order[a]) <= by_place()(order[b]));
    }
}

/// Solutions older than the newest listing are dropped, and no others; a new run
/// retires the current solutions of its strategy and destination only.
pub proof fn law_solutions_age(row: Record, latest: i64, strategy: Seq<char>, eu: bool)
    ensures
        up_to_date(Some(latest))(row) <==> row.created_at >= latest,
        up_to_date(None)(row),
        row.strategy == strategy && row.eu_destination == eu ==> !retired(
            row,
            strategy,
            eu,
        ).is_current,
        row.strategy != strategy || row.eu_destination != eu ==> retired(row, strategy, eu) == row,
        retired(row, strategy, eu).rank == row.rank,
        retired(row, strategy, eu).total_cost == row.total_cost,
        retired(row, strategy, eu).assignments_json == row.assignments_json,
{
}

} // verus!
