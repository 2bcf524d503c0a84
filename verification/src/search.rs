//! One card at one store: what the cache answers, what is left to fetch, and
//! what a fetch leaves in the cache.

use crate::cache::listings::{looked_up, with_search, Answer, Entry};
use crate::cache::{Cache, CacheLookup, Tables};
use crate::stores::cardmarket::{group_by_seller, rows_of_seller, seller_names};
use crate::stores::{listings, Listing, StoreResult, DELAY_JITTER_MS, DELAY_MS};
use crate::output::{left_aligned, push_left};
use crate::rows::{lemma_filter_empty, lemma_filter_step};
use crate::text::{begins, decimal, decimal_text, joined, starts_with, texts};
use vstd::prelude::*;

verus! {

/// How long to wait before a fetch (in milliseconds), given a random number.
pub fn fetch_delay(random: u64) -> (ms: u64)
    ensures
        ms == DELAY_MS + random % DELAY_JITTER_MS,
{
    DELAY_MS + random % DELAY_JITTER_MS
}

/// What the cache has for a card at a store.
pub struct CardPlan {
    /// The cached results, in the order of the keys.
    pub results: Vec<StoreResult>,
    /// The keys to fetch.
    pub to_fetch: Vec<String>,
    /// How many keys had results.
    pub cached: usize,
    /// How many keys are known to have none.
    pub skipped: usize,
}

/// What the cache answers for a key; without a cache everything is fetched.
pub open spec fn answer_for(cache: Option<Tables>, card: Seq<char>, key: Seq<char>, now: i64) -> Answer {
    match cache {
        Some(t) => looked_up(t, card, key, now),
        None => Answer::Search,
    }
}

/// The cached results under the keys.
pub open spec fn hits(cache: Option<Tables>, card: Seq<char>, keys: Seq<Seq<char>>, now: i64) -> Seq<
    Listing,
>
    decreases keys.len(),
{
    if keys.len() == 0 {
        Seq::empty()
    } else {
        let rest = hits(cache, card, keys.drop_last(), now);
        match answer_for(cache, card, keys.last(), now) {
            Answer::Hit(found) => rest + found,
            _ => rest,
        }
    }
}

pub open spec fn is_hit(cache: Option<Tables>, card: Seq<char>, now: i64) -> spec_fn(
    Seq<char>,
) -> bool {
    |key: Seq<char>| answer_for(cache, card, key, now) is Hit
}

pub open spec fn is_skip(cache: Option<Tables>, card: Seq<char>, now: i64) -> spec_fn(
    Seq<char>,
) -> bool {
    |key: Seq<char>| answer_for(cache, card, key, now) is Skip
}

pub open spec fn is_search(cache: Option<Tables>, card: Seq<char>, now: i64) -> spec_fn(
    Seq<char>,
) -> bool {
    |key: Seq<char>| answer_for(cache, card, key, now) is Search
}

pub open spec fn tables_of(cache: Option<&Cache>) -> Option<Tables> {
    match cache {
        Some(c) => Some(c@),
        None => None,
    }
}

/// Looks a card up under each of a store's keys.
pub fn plan_card(cache: Option<&Cache>, card: &str, keys: &Vec<String>, now: i64) -> (plan: CardPlan)
    ensures
        listings(plan.results@) == hits(tables_of(cache), card@, texts(keys@), now),
        texts(plan.to_fetch@) == texts(keys@).filter(is_search(tables_of(cache), card@, now)),
        plan.cached == texts(keys@).filter(is_hit(tables_of(cache), card@, now)).len(),
        plan.skipped == texts(keys@).filter(is_skip(tables_of(cache), card@, now)).len(),
{
    let ghost all = texts(keys@);
    let ghost t = tables_of(cache);
    let ghost ph = is_hit(t, card@, now);
    let ghost pk = is_skip(t, card@, now);
    let ghost ps = is_search(t, card@, now);
    let mut results: Vec<StoreResult> = Vec::new();
    let mut to_fetch: Vec<String> = Vec::new();
    let mut cached: usize = 0;
    let mut skipped: usize = 0;
    let mut i: usize = 0;
    proof {
        lemma_filter_empty(ph);
        lemma_filter_empty(pk);
        lemma_filter_empty(ps);
        assert(all.take(0) =~= Seq::empty());
        assert(listings(results@) =~= Seq::empty());
        assert(texts(to_fetch@) =~= Seq::empty());
    }
    while i < keys.len()
        invariant
            all == texts(keys@),
            t == tables_of(cache),
            ph == is_hit(t, card@, now),
            pk == is_skip(t, card@, now),
            ps == is_search(t, card@, now),
            i <= keys@.len(),
            cached <= i,
            skipped <= i,
            listings(results@) == hits(t, card@, all.take(i as int), now),
            texts(to_fetch@) == all.take(i as int).filter(ps),
            cached == all.take(i as int).filter(ph).len(),
            skipped == all.take(i as int).filter(pk).len(),
        decreases keys@.len() - i,
    {
        let key = &keys[i];
        proof {
            let s = all.take(i + 1);
            assert(s.drop_last() =~= all.take(i as int));
            assert(s.last() == key@);
            lemma_filter_step(all, i as int, ph);
            lemma_filter_step(all, i as int, pk);
            lemma_filter_step(all, i as int, ps);
        }
        let lookup = match cache {
            Some(c) => c.lookup(card, key, now),
            None => CacheLookup::Search,
        };
        match lookup {
            CacheLookup::Hit(mut found) => {
                let ghost r0 = results@;
                let ghost f0 = found@;
                results.append(&mut found);
                assert(listings(results@) =~= listings(r0) + listings(f0));
                cached += 1;
            },
            CacheLookup::Skip => {
                skipped += 1;
            },
            CacheLookup::Search => {
                let ghost t0 = to_fetch@;
                to_fetch.push(key.clone());
                assert(texts(to_fetch@) =~= texts(t0).push(key@));
            },
        }
        i += 1;
    }
    assert(all.take(i as int) =~= all);
    CardPlan { results, to_fetch, cached, skipped }
}

/// An empty search there means that the store was given up on, not that it has
/// nothing.
pub open spec fn given_up(key: Seq<char>, blocked: bool) -> bool {
    starts_with(key, "cardmarket"@) && blocked
}

/// The listings after each of the sellers' results replaced the seller's rows.
pub open spec fn with_sellers(
    rows: Seq<Entry>,
    card: Seq<char>,
    found: Seq<Listing>,
    sellers: Seq<Seq<char>>,
    now: i64,
) -> Seq<Entry>
    decreases sellers.len(),
{
    if sellers.len() == 0 {
        rows
    } else {
        with_search(
            with_sellers(rows, card, found, sellers.drop_last(), now),
            card,
            sellers.last(),
            rows_of_seller(found, sellers.last()),
            now,
        )
    }
}

/// The listings after a fetch of a card under a key.
pub open spec fn with_fetch(
    rows: Seq<Entry>,
    card: Seq<char>,
    key: Seq<char>,
    found: Seq<Listing>,
    blocked: bool,
    now: i64,
) -> Seq<Entry> {
    if found.len() > 0 {
        with_sellers(rows, card, found, seller_names(found), now)
    } else if given_up(key, blocked) {
        rows
    } else {
        with_search(rows, card, key, Seq::empty(), now)
    }
}

/// Records what a fetch of a card under a key found.  All results of a seller
/// replace the seller's rows at once.
pub fn record_fetch(
    cache: &mut Cache,
    card: &str,
    key: &str,
    found: &Vec<StoreResult>,
    blocked: bool,
    now: i64,
)
    ensures
        final(cache)@.listings == with_fetch(
            old(cache)@.listings,
            card@,
            key@,
            listings(found@),
            blocked,
            now,
        ),
        final(cache)@.solutions == old(cache)@.solutions,
        final(cache)@.names == old(cache)@.names,
{
    let ghost rows = listings(found@);
    if found.len() == 0 {
        if !(begins(key, "cardmarket") && blocked) {
            cache.store(card, key, found, now);
            assert(rows =~= Seq::empty());
        }
        return;
    }
    let groups = group_by_seller(found);
    let ghost names = seller_names(rows);
    let mut i: usize = 0;
    assert(names.take(0) =~= Seq::empty());
    while i < groups.len()
        invariant
            rows == listings(found@),
            names == seller_names(rows),
            names.len() == groups@.len(),
            forall|k: int| 0 <= k < groups@.len() ==> (#[trigger] groups@[k]).store_name@ == names[k],
            forall|k: int|
                0 <= k < groups@.len() ==> listings((#[trigger] groups@[k]).results@)
                    == rows_of_seller(rows, groups@[k].store_name@),
            i <= groups@.len(),
            cache@.listings == with_sellers(
                old(cache)@.listings,
                card@,
                rows,
                names.take(i as int),
                now,
            ),
            cache@.solutions == old(cache)@.solutions,
            cache@.names == old(cache)@.names,
        decreases groups@.len() - i,
    {
        proof {
            let s = names.take(i + 1);
            assert(s.drop_last() =~= names.take(i as int));
            assert(s.last() == groups@[i as int].store_name@);
        }
        cache.store(card, &groups[i].store_name, &groups[i].results, now);
        i += 1;
    }
    assert(names.take(i as int) =~= names);
}

/// Records what was read off a page by hand, as a fetch that was not given up on.
pub fn record_rescue(
    cache: &mut Cache,
    card: &str,
    key: &str,
    found: &Vec<StoreResult>,
    now: i64,
)
    ensures
        final(cache)@.listings == with_fetch(
            old(cache)@.listings,
            card@,
            key@,
            listings(found@),
            false,
            now,
        ),
        final(cache)@.solutions == old(cache)@.solutions,
        final(cache)@.names == old(cache)@.names,
{
    record_fetch(cache, card, key, found, false, now)
}

/// How often a store answered in which way.
#[derive(Debug, PartialEq, Eq, Structural, Clone, Copy)]
pub struct StoreCounts {
    pub cached: u32,
    pub skipped: u32,
    pub fetched: u32,
    pub failed: u32,
}

/// A count with its label, after a comma, unless it is nothing.
pub open spec fn part(count: u32, label: Seq<char>) -> Seq<char> {
    if count > 0 {
        ", "@ + decimal(count as nat) + label
    } else {
        Seq::empty()
    }
}

fn add_part(line: &mut String, count: u32, label: &str)
    ensures
        final(line)@ == old(line)@ + part(count, label@),
{
    if count > 0 {
        line.append(", ");
        line.append(&decimal_text(count as u64));
        line.append(label);
        assert(line@ =~= old(line)@ + part(count, label@));
    } else {
        assert(line@ =~= old(line)@ + part(count, label@));
    }
}

impl StoreCounts {
    /// Nothing counted.
    pub fn none() -> (counts: Self)
        ensures
            counts == (StoreCounts { cached: 0, skipped: 0, fetched: 0, failed: 0 }),
    {
        StoreCounts { cached: 0, skipped: 0, fetched: 0, failed: 0 }
    }

    pub open spec fn words(&self) -> Seq<char> {
        decimal((self.cached + self.skipped + self.fetched) as nat) + " lookups"@ + part(
            self.cached,
            " cached"@,
        ) + part(self.skipped, " skipped"@) + part(self.fetched, " fetched"@) + part(
            self.failed,
            " failed"@,
        )
    }

    /// The counts in words, such as "3 lookups, 2 cached, 1 fetched".
    pub fn summary(&self) -> (line: String)
        ensures
            line@ == self.words(),
    {
        let lookups: u64 = self.cached as u64 + self.skipped as u64 + self.fetched as u64;
        let mut line = joined(&decimal_text(lookups), " lookups");
        add_part(&mut line, self.cached, " cached");
        add_part(&mut line, self.skipped, " skipped");
        add_part(&mut line, self.fetched, " fetched");
        add_part(&mut line, self.failed, " failed");
        line
    }

    /// The counts of a store in words.
    pub fn line(&self, store: &str) -> (line: String)
        ensures
            line@ == "  "@ + left_aligned(store@, 30) + " "@ + self.words(),
    {
        let mut line = "  ".to_owned();
        push_left(&mut line, store, 30);
        line.append(" ");
        line.append(&self.summary());
        line
    }
}

} // verus!
