//! What the HTTP API answers.

use crate::cache::Tables;
use crate::cache::listings::{looked_up, Answer};
use crate::cache::solutions::Past;
use crate::laws::shipping::{
    lemma_longer_prefix, lemma_no_prefix, lemma_prefix, lemma_seller_prefixes,
};
use crate::order::law_stable_sorted;
use crate::server::handlers::{added, busy_with, running};
use crate::server::jobs::{
    busy, fresh_fetch, fresh_wizard, kept, slot_at, unfinished, Busy, Job, JobKind, JobStatus,
    StorePhase,
};
use crate::server::requests::{active, runs_serve};
use crate::server::results::{
    all_cached, api_store, by_price, cached_tags, capped, capped_all, card_pairs, cards_of,
    endpoint, entries_at, entry_of, grouped, key_pairs, keys_of, store_of, store_pairs, ApiEntry,
    Tag, WizardResponseData,
};
use crate::stores::Listing;
use crate::text::{starts_with, texts};
use crate::wizard::solution::{line_view, lines, WizardSolution};
use vstd::prelude::*;

verus! {

/// The API names a CardMarket seller by name and category, and any other store as
/// it is.
pub proof fn law_api_names(name: Seq<char>, store: Seq<char>)
    ensures
        api_store("cardmarket.com: "@ + name) == (name, Some("n"@)),
        api_store("cardmarket-int.com: "@ + name) == (name, Some("i"@)),
        api_store("cardmarket-int-private.com: "@ + name) == (name, Some("p"@)),
        !starts_with(store, "cardmarket"@) ==> api_store(store) == (store, None::<Seq<char>>),
{
    lemma_seller_prefixes(name);
    lemma_private_space(name);
    if !starts_with(store, "cardmarket"@) {
        reveal_strlit("cardmarket");
        reveal_strlit("cardmarket.com: ");
        reveal_strlit("cardmarket-int.com: ");
        reveal_strlit("cardmarket-int-private.com: ");
        lemma_longer_prefix(store, "cardmarket"@, "cardmarket.com: "@);
        lemma_longer_prefix(store, "cardmarket"@, "cardmarket-int.com: "@);
        lemma_longer_prefix(store, "cardmarket"@, "cardmarket-int-private.com: "@);
    }
}

proof fn lemma_private_space(name: Seq<char>)
    ensures
        !starts_with("cardmarket.com: "@ + name, "cardmarket-int.com: "@),
        !starts_with("cardmarket.com: "@ + name, "cardmarket-int-private.com: "@),
        !starts_with("cardmarket-int.com: "@ + name, "cardmarket-int-private.com: "@),
{
    reveal_strlit("cardmarket.com: ");
    reveal_strlit("cardmarket-int.com: ");
    reveal_strlit("cardmarket-int-private.com: ");
    lemma_no_prefix("cardmarket.com: "@ + name, "cardmarket-int.com: "@, 10);
    lemma_no_prefix("cardmarket.com: "@ + name, "cardmarket-int-private.com: "@, 10);
    lemma_no_prefix("cardmarket-int.com: "@ + name, "cardmarket-int-private.com: "@, 14);
}

/// A listing is returned with its store, price and link.
pub proof fn law_entries(r: Listing)
    ensures
        entry_of(r).store == api_store(r.store).0,
        entry_of(r).category == api_store(r.store).1,
        entry_of(r).price == r.price,
        entry_of(r).url == r.url,
{
}

/// The sellers of one kind count towards one endpoint; any other store is its own.
pub proof fn law_endpoints(name: Seq<char>, store: Seq<char>)
    ensures
        endpoint("cardmarket.com: "@ + name) == "cardmarket.com"@,
        endpoint("cardmarket-int.com: "@ + name) == "cardmarket-int.com"@,
        endpoint("cardmarket-int-private.com: "@ + name) == "cardmarket-int-private.com"@,
        !starts_with(store, "cardmarket"@) ==> endpoint(store) == store,
{
    reveal_strlit("cardmarket");
    reveal_strlit(": ");
    reveal_strlit("cardmarket.com");
    reveal_strlit("cardmarket-int.com");
    reveal_strlit("cardmarket-int-private.com");
    reveal_strlit("cardmarket.com: ");
    reveal_strlit("cardmarket-int.com: ");
    reveal_strlit("cardmarket-int-private.com: ");
    let a = "cardmarket.com: "@ + name;
    let b = "cardmarket-int.com: "@ + name;
    let c = "cardmarket-int-private.com: "@ + name;
    assert(a =~= "cardmarket.com"@ + (": "@ + name));
    assert(b =~= "cardmarket-int.com"@ + (": "@ + name));
    assert(c =~= "cardmarket-int-private.com"@ + (": "@ + name));
    lemma_prefix("cardmarket.com"@, ": "@ + name);
    lemma_prefix("cardmarket-int.com"@, ": "@ + name);
    lemma_prefix("cardmarket-int-private.com"@, ": "@ + name);
    lemma_no_prefix(a, "cardmarket-int-private.com"@, 10);
    lemma_no_prefix(a, "cardmarket-int.com"@, 10);
    lemma_no_prefix(b, "cardmarket-int-private.com"@, 14);
    if !starts_with(store, "cardmarket"@) {
        lemma_longer_prefix(store, "cardmarket"@, "cardmarket.com"@);
        lemma_longer_prefix(store, "cardmarket"@, "cardmarket-int.com"@);
        lemma_longer_prefix(store, "cardmarket"@, "cardmarket-int-private.com"@);
    }
}

proof fn lemma_cards_of(tags: Seq<Tag>)
    ensures
        cards_of(tags).no_duplicates(),
        forall|i: int|
            0 <= i < tags.len() ==> cards_of(tags).contains((#[trigger] tags[i]).card),
        forall|k: int|
            0 <= k < cards_of(tags).len() ==> #[trigger] has_card(tags, cards_of(tags)[k]),
    decreases tags.len(),
{
    if tags.len() > 0 {
        let init = tags.drop_last();
        lemma_cards_of(init);
        let rest = cards_of(init);
        let all = cards_of(tags);
        assert forall|i: int| 0 <= i < tags.len() implies all.contains((#[trigger] tags[i]).card) by {
            let c = tags[i].card;
            if i < init.len() {
                assert(init[i] == tags[i]);
                assert(rest.contains(init[i].card));
            }
            if rest.contains(c) {
                let k = choose|k: int| 0 <= k < rest.len() && rest[k] == c;
                assert(all[k] == c);
            } else {
                assert(all[rest.len() as int] == c);
            }
        }
        assert forall|k: int| 0 <= k < all.len() implies #[trigger] has_card(tags, all[k]) by {
            if k < rest.len() {
                assert(has_card(init, rest[k]));
                let i = choose|i: int| 0 <= i < init.len() && (#[trigger] init[i]).card == rest[k];
                assert(tags[i].card == all[k]);
            } else {
                assert(tags[tags.len() - 1].card == all[k]);
            }
        }
    }
}

pub open spec fn has_card(tags: Seq<Tag>, card: Seq<char>) -> bool {
    exists|i: int| 0 <= i < tags.len() && (#[trigger] tags[i]).card == card
}

proof fn lemma_keys_of(tags: Seq<Tag>, card: Seq<char>)
    ensures
        keys_of(tags, card).no_duplicates(),
        forall|i: int|
            0 <= i < tags.len() && (#[trigger] tags[i]).card == card ==> keys_of(tags, card).contains(
                tags[i].key,
            ),
    decreases tags.len(),
{
    if tags.len() > 0 {
        let init = tags.drop_last();
        lemma_keys_of(init, card);
        let rest = keys_of(init, card);
        let all = keys_of(tags, card);
        assert forall|i: int| 0 <= i < tags.len() && (#[trigger] tags[i]).card == card implies all.contains(
            tags[i].key,
        ) by {
            let c = tags[i].key;
            if i < init.len() {
                assert(init[i] == tags[i]);
                assert(rest.contains(init[i].key));
            }
            if rest.contains(c) {
                let k = choose|k: int| 0 <= k < rest.len() && rest[k] == c;
                assert(all[k] == c);
            } else {
                assert(all[rest.len() as int] == c);
            }
        }
    }
}

/// The entries of a card at an endpoint are those that were tagged so, in order.
pub proof fn law_entries_at(tags: Seq<Tag>, card: Seq<char>, key: Seq<char>)
    ensures
        entries_at(tags, card, key) == tags.filter(
            |t: Tag| t.card == card && t.key == key,
        ).map_values(|t: Tag| t.entry),
    decreases tags.len(),
{
    reveal(Seq::filter);
    let f = |t: Tag| t.entry;
    let q = |t: Tag| t.card == card && t.key == key;
    if tags.len() > 0 {
        let init = tags.drop_last();
        law_entries_at(init, card, key);
        let kept_tags = init.filter(q);
        assert(kept_tags.push(tags.last()).map_values(f) =~= kept_tags.map_values(f).push(
            f(tags.last()),
        ));
    } else {
        assert(tags.filter(q).map_values(f) =~= Seq::empty());
    }
}

proof fn lemma_entry_at(tags: Seq<Tag>, card: Seq<char>, key: Seq<char>, i: int)
    requires
        0 <= i < tags.len(),
        tags[i].card == card,
        tags[i].key == key,
    ensures
        entries_at(tags, card, key).contains(tags[i].entry),
    decreases tags.len(),
{
    let init = tags.drop_last();
    let all = entries_at(tags, card, key);
    let rest = entries_at(init, card, key);
    if i < init.len() {
        lemma_entry_at(init, card, key, i);
        let k = choose|k: int| 0 <= k < rest.len() && rest[k] == tags[i].entry;
        assert(all[k] == tags[i].entry);
    } else {
        assert(all[rest.len() as int] == tags[i].entry);
    }
}

proof fn lemma_capped_all(
    tags: Seq<Tag>,
    card: Seq<char>,
    keys: Seq<Seq<char>>,
    max: usize,
    key: Seq<char>,
    e: ApiEntry,
)
    requires
        keys.contains(key),
        capped(entries_at(tags, card, key), max).contains(e),
    ensures
        capped_all(tags, card, keys, max).contains(e),
    decreases keys.len(),
{
    let rest = capped_all(tags, card, keys.drop_last(), max);
    let tail = capped(entries_at(tags, card, keys.last()), max);
    let all = capped_all(tags, card, keys, max);
    if keys.last() == key {
        let k = choose|k: int| 0 <= k < tail.len() && tail[k] == e;
        assert(all[rest.len() + k] == e);
    } else {
        let i = choose|i: int| 0 <= i < keys.len() && keys[i] == key;
        assert(keys.drop_last()[i] == key);
        lemma_capped_all(tags, card, keys.drop_last(), max, key, e);
        let k = choose|k: int| 0 <= k < rest.len() && rest[k] == e;
        assert(all[k] == e);
    }
}

/// Without a cap, every result is returned under its card; every card with results
/// is returned once.
pub proof fn law_results_by_card(tags: Seq<Tag>, max: usize, i: int)
    requires
        0 <= i < tags.len(),
    ensures
        ({
            let groups = grouped(tags, max);
            &&& forall|a: int, b: int|
                0 <= a < b < groups.len() ==> (#[trigger] groups[a]).0 != (#[trigger] groups[b]).0
            &&& exists|g: int|
                0 <= g < groups.len() && (#[trigger] groups[g]).0 == tags[i].card && (max == 0
                    ==> groups[g].1.contains(tags[i].entry)) && (max > 0 ==> groups[g].1.len() > 0)
        }),
{
    let card = tags[i].card;
    let key = tags[i].key;
    let groups = grouped(tags, max);
    lemma_cards_of(tags);
    lemma_keys_of(tags, card);
    lemma_entry_at(tags, card, key, i);
    assert(cards_of(tags).contains(tags[i].card));
    let g = choose|g: int| 0 <= g < cards_of(tags).len() && cards_of(tags)[g] == card;
    assert(groups[g].0 == card);
    let entries = entries_at(tags, card, key);
    if max == 0 {
        lemma_capped_all(tags, card, keys_of(tags, card), max, key, tags[i].entry);
    } else {
        law_stable_sorted(entries, by_price());
        let first = capped(entries, max)[0];
        assert(entries.len() > 0);
        assert(capped(entries, max).len() > 0);
        assert(capped(entries, max).contains(first));
        lemma_capped_all(tags, card, keys_of(tags, card), max, key, first);
    }
    assert forall|a: int, b: int| 0 <= a < b < groups.len() implies (#[trigger] groups[a]).0 != (
    #[trigger] groups[b]).0 by {
        assert(groups[a].0 == cards_of(tags)[a] && groups[b].0 == cards_of(tags)[b]);
    }
}

/// A cap leaves at most so many entries per endpoint, and none is made up.
pub proof fn law_capped_entries(entries: Seq<ApiEntry>, max: usize, e: ApiEntry)
    ensures
        max > 0 ==> capped(entries, max).len() <= max,
        max == 0 ==> capped(entries, max) == entries,
        capped(entries, max).contains(e) ==> entries.contains(e),
{
    law_stable_sorted(entries, by_price());
    let sorted = crate::order::stable_sorted(entries, by_price());
    let kept_entries = capped(entries, max);
    if max > 0 && kept_entries.contains(e) {
        let k = choose|k: int| 0 <= k < kept_entries.len() && kept_entries[k] == e;
        assert(sorted[k] == e);
        assert(sorted.contains(e));
    }
}

proof fn lemma_key_pairs(cards: Seq<Seq<char>>, keys: Seq<Seq<char>>, card: Seq<char>, key: Seq<char>)
    ensures
        key_pairs(cards, keys).contains((card, key)) <==> cards.contains(card) && keys.contains(key),
    decreases keys.len(),
{
    let all = key_pairs(cards, keys);
    if keys.len() > 0 {
        let init = keys.drop_last();
        lemma_key_pairs(cards, init, card, key);
        let rest = key_pairs(cards, init);
        let tail = card_pairs(cards, keys.last());
        if all.contains((card, key)) {
            let i = choose|i: int| 0 <= i < all.len() && all[i] == (card, key);
            if i < rest.len() {
                assert(rest[i] == (card, key));
                assert(rest.contains((card, key)));
                let k = choose|k: int| 0 <= k < init.len() && init[k] == key;
                assert(keys[k] == key);
            } else {
                assert(tail[i - rest.len()] == (card, key));
                assert(cards[i - rest.len()] == card);
                assert(keys[keys.len() - 1] == key);
            }
        }
        if cards.contains(card) && keys.contains(key) {
            if init.contains(key) {
                let i = choose|i: int| 0 <= i < rest.len() && rest[i] == (card, key);
                assert(all[i] == (card, key));
            } else {
                let k = choose|k: int| 0 <= k < keys.len() && keys[k] == key;
                if k < init.len() {
                    assert(init[k] == key);
                }
                let c = choose|c: int| 0 <= c < cards.len() && cards[c] == card;
                assert(tail[c] == (card, key));
                assert(all[rest.len() + c] == (card, key));
            }
        }
    }
}

/// A fetch asks for every card under every key of every store, and for nothing else.
pub proof fn law_every_pair_is_asked_for(
    cards: Seq<Seq<char>>,
    keys: Seq<Vec<String>>,
    stores: Seq<usize>,
    card: Seq<char>,
    key: Seq<char>,
)
    ensures
        store_pairs(cards, keys, stores).contains((card, key)) <==> cards.contains(card) && exists|
            s: int,
        |
            0 <= s < stores.len() && texts(keys[(#[trigger] stores[s]) as int]@).contains(key),
    decreases stores.len(),
{
    let all = store_pairs(cards, keys, stores);
    if stores.len() > 0 {
        let init = stores.drop_last();
        law_every_pair_is_asked_for(cards, keys, init, card, key);
        let rest = store_pairs(cards, keys, init);
        let here = texts(keys[stores.last() as int]@);
        let tail = key_pairs(cards, here);
        lemma_key_pairs(cards, here, card, key);
        if all.contains((card, key)) {
            let i = choose|i: int| 0 <= i < all.len() && all[i] == (card, key);
            if i < rest.len() {
                assert(rest[i] == (card, key));
                assert(rest.contains((card, key)));
                let s = choose|s: int|
                    0 <= s < init.len() && texts(keys[(#[trigger] init[s]) as int]@).contains(key);
                assert(stores[s] == init[s]);
            } else {
                assert(tail[i - rest.len()] == (card, key));
                assert(tail.contains((card, key)));
                assert(stores[stores.len() - 1] == stores.last());
            }
        }
        if cards.contains(card) && exists|s: int|
            0 <= s < stores.len() && texts(keys[(#[trigger] stores[s]) as int]@).contains(key) {
            let s = choose|s: int|
                0 <= s < stores.len() && texts(keys[(#[trigger] stores[s]) as int]@).contains(key);
            if s < init.len() {
                assert(init[s] == stores[s]);
                let i = choose|i: int| 0 <= i < rest.len() && rest[i] == (card, key);
                assert(all[i] == (card, key));
            } else {
                let i = choose|i: int| 0 <= i < tail.len() && tail[i] == (card, key);
                assert(all[rest.len() + i] == (card, key));
            }
        }
    }
}

/// What the cache has for a pair is returned under its card and key, and the cache
/// suffices exactly if no pair has to be searched.
pub proof fn law_cached_pairs(
    t: Tables,
    pairs: Seq<(Seq<char>, Seq<char>)>,
    pair: (Seq<char>, Seq<char>),
    now: i64,
)
    ensures
        cached_tags(t, Seq::empty(), now).len() == 0,
        !(looked_up(t, pair.0, pair.1, now) is Hit) ==> cached_tags(t, pairs.push(pair), now)
            == cached_tags(t, pairs, now),
        looked_up(t, pair.0, pair.1, now) matches Answer::Hit(found) ==> {
            let more = cached_tags(t, pairs.push(pair), now);
            let before = cached_tags(t, pairs, now);
            &&& more.len() == before.len() + found.len()
            &&& more.take(before.len() as int) == before
            &&& forall|i: int|
                0 <= i < found.len() ==> (#[trigger] more[before.len() + i]).card == pair.0 && more[
                before.len() + i].key == pair.1 && more[before.len() + i].entry == entry_of(
                    found[i],
                )
        },
        all_cached(t, pairs, now) <==> forall|i: int|
            0 <= i < pairs.len() ==> !(looked_up(
                t,
                (#[trigger] pairs[i]).0,
                pairs[i].1,
                now,
            ) is Search),
{
    assert(pairs.push(pair).drop_last() =~= pairs);
    let before = cached_tags(t, pairs, now);
    if let Answer::Hit(found) = looked_up(t, pair.0, pair.1, now) {
        let more = cached_tags(t, pairs.push(pair), now);
        assert(more.take(before.len() as int) =~= before);
    }
}

/// Past runs serve a request exactly if they are for as many cards and one of them
/// was exhaustive.
pub proof fn law_past_runs_serve(runs: Seq<(Past, bool)>, cards: int)
    ensures
        runs_serve(runs, cards) <==> runs.len() > 0 && runs[0].0.raw_choices.len() == cards
            && exists|i: int| 0 <= i < runs.len() && #[trigger] runs[i].1,
        (forall|i: int| 0 <= i < runs.len() ==> !(#[trigger] runs[i]).1) ==> !runs_serve(runs, cards),
{
}

/// The stores that a request asks are all of them without filters, and else those
/// that a filter selects, in order.
pub proof fn law_active_stores(names: Seq<Seq<char>>, filters: Seq<Seq<char>>, k: int)
    requires
        0 <= k <= names.len() <= usize::MAX,
    ensures
        active(names, filters, k) == Seq::new(k as nat, |i: int| i as usize).filter(
            |i: usize|
                filters.len() == 0 || crate::decklist::selected(names[i as int], filters),
        ),
    decreases k,
{
    reveal(Seq::filter);
    let all = Seq::new(k as nat, |i: int| i as usize);
    if k > 0 {
        law_active_stores(names, filters, k - 1);
        assert(all.drop_last() =~= Seq::new((k - 1) as nat, |i: int| i as usize));
    }
}

/// A finished job is kept for half an hour, and one that waits or runs for as long
/// as it does.
pub proof fn law_jobs_are_kept(id: Seq<char>, job: Job, now: u64)
    ensures
        unfinished(job) <==> job.status == JobStatus::Pending || job.status == JobStatus::Running,
        unfinished(job) ==> kept(now)((id, job)),
        !unfinished(job) && now >= job.created_at ==> (kept(now)((id, job)) <==> now
            - job.created_at < 1800),
        busy(job.kind)((id, job)) <==> unfinished(job),
        forall|kind: JobKind| kind != job.kind ==> !(#[trigger] busy(kind))((id, job)),
{
}

/// A job starts exactly where no other of its kind waits or runs; old jobs go and
/// the others stay.
pub proof fn law_one_job_of_a_kind(
    b: Busy,
    before: Seq<(Seq<char>, Job)>,
    after: Seq<(Seq<char>, Job)>,
    clock: u64,
    kind: JobKind,
    id: Seq<char>,
)
    ensures
        added(before, after, clock, kind, id) ==> running(before, clock, kind).len() == 0
            && after.len() > 0 && after.last().0 == id && after.drop_last() == before.filter(
            kept(clock),
        ),
        busy_with(b, before, after, clock, kind) ==> running(before, clock, kind).len() > 0 && after
            == before.filter(kept(clock)) && b.kind == kind && b.ids@.len() == running(
            before,
            clock,
            kind,
        ).len(),
{
    if busy_with(b, before, after, clock, kind) {
        assert(texts(b.ids@).len() == b.ids@.len());
    }
}

/// A job is found by its ID, the latest of that ID, and not found only where no job
/// has it.
pub proof fn law_jobs_by_id(slots: Seq<(Seq<char>, Job)>, id: Seq<char>)
    ensures
        match slot_at(slots, id) {
            Some(i) => 0 <= i < slots.len() && slots[i].0 == id,
            None => forall|i: int| 0 <= i < slots.len() ==> (#[trigger] slots[i]).0 != id,
        },
    decreases slots.len(),
{
    if slots.len() > 0 && slots.last().0 != id {
        law_jobs_by_id(slots.drop_last(), id);
        assert forall|i: int|
            0 <= i < slots.len() && slot_at(slots, id) is None implies (#[trigger] slots[i]).0
            != id by {
            if i < slots.len() - 1 {
                assert(slots.drop_last()[i] == slots[i]);
            }
        }
    }
}

/// A solution is returned line by line: a bought card with its store, price and
/// link, a skipped one with its name alone.
pub proof fn law_returned_solution(data: WizardResponseData, sol: WizardSolution, i: int)
    requires
        data.stands_for(&sol),
    ensures
        data.assignments@.len() == sol.assignments@.len(),
        0 <= i < sol.assignments@.len() ==> {
            let a = data.assignments@[i]@;
            let line = line_view(sol.assignments@[i]);
            &&& a.card == line.0
            &&& line.1 matches Some(bought) ==> a.price == Some(bought.1) && a.url == Some(bought.2)
                && a.store == Some(api_store(bought.0).0) && a.category == api_store(bought.0).1
            &&& line.1 is None ==> a.price is None && a.url is None && a.store is None
                && a.category is None
        },
        data.stores@.len() == sol.store_names@.len(),
        0 <= i < sol.store_names@.len() ==> {
            let s = data.stores@[i]@;
            &&& s.name == api_store(sol.store_names@[i]@).0
            &&& s.category == api_store(sol.store_names@[i]@).1
            &&& s.card_total == sol.card_subtotals@[i]
            &&& s.shipping == sol.shipping_costs@[i]
        },
        data.total_card_cost == sol.total_card_cost,
        data.total_shipping == sol.total_shipping,
        data.num_stores == sol.num_stores,
        texts(data.skipped@) == texts(sol.skipped@),
{
    let views = crate::rows::views(data.assignments@);
    let all = lines(sol.assignments@);
    assert(views.len() == data.assignments@.len());
    assert(all.len() == sol.assignments@.len());
    if 0 <= i < sol.assignments@.len() {
        assert(views[i] == data.assignments@[i]@);
        assert(all[i] == line_view(sol.assignments@[i]));
    }
    if 0 <= i < sol.store_names@.len() {
        assert(data.stores@[i]@ == store_of(&sol, i));
    }
}

/// The labels that the API uses.
pub proof fn law_labels()
    ensures
        JobKind::Fetch.label() == "fetch"@,
        JobKind::Wizard.label() == "wizard"@,
        JobStatus::Pending.label() == "pending"@,
        JobStatus::Running.label() == "running"@,
        JobStatus::Done.label() == "done"@,
        JobStatus::Failed.label() == "failed"@,
        StorePhase::Pending.label() == "pending"@,
        StorePhase::Fetching.label() == "fetching"@,
        StorePhase::Done.label() == "done"@,
{
}

/// A job starts with nothing done, and with as much to do as was asked.
pub proof fn law_fresh_jobs(job: Job, now: u64, names: Seq<Seq<char>>, n: int, combos: int, i: int)
    ensures
        fresh_fetch(job, now, names, n) ==> {
            &&& unfinished(job)
            &&& job.kind == JobKind::Fetch
            &&& job.created_at == now
            &&& job.cards_done == 0
            &&& job.cards_total == n * names.len()
            &&& job.result is None && job.error is None
            &&& job.stores@.len() == names.len()
            &&& 0 <= i < names.len() ==> job.stores@[i].store@ == names[i]
                && job.stores@[i].cards_found == 0 && job.stores@[i].phase == StorePhase::Pending
        },
        fresh_wizard(job, now, n, combos) ==> {
            &&& unfinished(job)
            &&& job.kind == JobKind::Wizard
            &&& job.created_at == now
            &&& job.tolerance_done == 0
            &&& job.tolerance_total == n
            &&& job.combos_total == combos
            &&& job.result is None && job.partial_result is None && job.error is None
        },
{
}

} // verus!
