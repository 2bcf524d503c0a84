//! Listings in the cache.
//!
//! Each row is one product listing.  A card can have several rows at one store,
//! and an empty search is a row that is not in stock.

use crate::cache::{age, age_of, Cache, Tables, NEGATIVE_TTL, POSITIVE_TTL};
use crate::rows::{
    lemma_filter_empty, lemma_filter_push, lemma_filter_step, lemma_filter_twice, lemma_views_push,
    retain_rows,
};
use crate::shipping::{blacklisted, extract_seller_name, is_blacklisted, seller_of};
use crate::stores::{listings, Listing, StoreResult};
use crate::text::{
    eq_ignore_ascii_case, from_chars, joined, same_ignoring_case, same_text, slice, split_at_first,
    split_once, texts, to_chars,
};
use vstd::prelude::*;

verus! {

pub struct ListingRow {
    pub card_name: String,
    pub store_name: String,
    pub price: u32,
    pub url: String,
    pub in_stock: bool,
    pub fetched_at: i64,
}

/// A `ListingRow` as plain values.
pub struct Entry {
    pub card: Seq<char>,
    pub store: Seq<char>,
    pub price: u32,
    pub url: Seq<char>,
    pub in_stock: bool,
    pub fetched_at: i64,
}

impl View for ListingRow {
    type V = Entry;

    open spec fn view(&self) -> Entry {
        Entry {
            card: self.card_name@,
            store: self.store_name@,
            price: self.price,
            url: self.url@,
            in_stock: self.in_stock,
            fetched_at: self.fetched_at,
        }
    }
}

impl Entry {
    pub open spec fn listing(self) -> Listing {
        Listing { store: self.store, card: self.card, price: self.price, url: self.url }
    }
}

/// Result of a cache lookup for a single (card, store) pair.
pub enum CacheLookup {
    /// No valid entry: perform a live search.
    Search,
    /// The previous search had no results and is still fresh.
    Skip,
    /// The cached results; several for stores with several sellers per card.
    Hit(Vec<StoreResult>),
}

/// A `CacheLookup` as plain values.
pub enum Answer {
    Search,
    Skip,
    Hit(Seq<Listing>),
}

impl View for CacheLookup {
    type V = Answer;

    open spec fn view(&self) -> Answer {
        match self {
            CacheLookup::Search => Answer::Search,
            CacheLookup::Skip => Answer::Skip,
            CacheLookup::Hit(v) => Answer::Hit(listings(v@)),
        }
    }
}

/// The store goes by the key: it is the key, or one of the sellers `key: ...`.
/// The case of ASCII letters before the colon does not matter.
pub open spec fn goes_by(store: Seq<char>, key: Seq<char>) -> bool {
    store == key || (store.len() > key.len() && same_ignoring_case(
        store.take(key.len() as int + 1),
        key + ":"@,
    ))
}

/// Does the store go by the key?
pub fn store_goes_by(store: &str, key: &str) -> (b: bool)
    ensures
        b == goes_by(store@, key@),
{
    if same_text(store, key) {
        return true;
    }
    let s = to_chars(store);
    let k = to_chars(key);
    if s.len() <= k.len() {
        return false;
    }
    let head = slice(&s, 0, k.len() + 1);
    assert(head@ =~= store@.take(key@.len() as int + 1));
    eq_ignore_ascii_case(&from_chars(&head), &joined(key, ":"))
}

/// The rows that answer for a card at a store.
pub open spec fn answering(card: Seq<char>, key: Seq<char>) -> spec_fn(Entry) -> bool {
    |row: Entry| row.card == card && goes_by(row.store, key)
}

/// The rows in stock.
pub open spec fn stocked() -> spec_fn(Entry) -> bool {
    |row: Entry| row.in_stock
}

/// When the newest of the rows was fetched.
pub open spec fn newest(rows: Seq<Entry>) -> Option<i64>
    decreases rows.len(),
{
    if rows.len() == 0 {
        None
    } else {
        match newest(rows.drop_last()) {
            Some(t) if t >= rows.last().fetched_at => Some(t),
            _ => Some(rows.last().fetched_at),
        }
    }
}

pub open spec fn as_listings(rows: Seq<Entry>) -> Seq<Listing> {
    rows.map_values(|row: Entry| row.listing())
}

/// What rows answer: nothing in stock counts for a day, listings for a week.
pub open spec fn answer(rows: Seq<Entry>, now: i64) -> Answer {
    let found = rows.filter(stocked());
    match newest(rows) {
        None => Answer::Search,
        Some(at) => if found.len() == 0 {
            if age(now, at) < NEGATIVE_TTL {
                Answer::Skip
            } else {
                Answer::Search
            }
        } else if age(now, at) >= POSITIVE_TTL {
            Answer::Search
        } else {
            Answer::Hit(as_listings(found))
        },
    }
}

/// What the cache answers for a card at a store.
pub open spec fn looked_up(t: Tables, card: Seq<char>, key: Seq<char>, now: i64) -> Answer {
    answer(t.listings.filter(answering(card, key)), now)
}

/// Not a row of the card at the store, nor an empty search at the storefront
/// that the seller `front: ...` belongs to.
pub open spec fn survives(card: Seq<char>, store: Seq<char>) -> spec_fn(Entry) -> bool {
    |row: Entry|
        row.card != card || (row.store != store && !(split_once(store, ':') matches Some(sides)
            && row.store == sides.0 && !row.in_stock))
}

pub open spec fn unlike(new: Entry) -> spec_fn(Entry) -> bool {
    |row: Entry| row.card != new.card || row.store != new.store || row.url != new.url
}

/// A row added in place of one with the same card, store and link.
pub open spec fn put(rows: Seq<Entry>, new: Entry) -> Seq<Entry> {
    rows.filter(unlike(new)).push(new)
}

pub open spec fn found_row(card: Seq<char>, store: Seq<char>, found: Listing, now: i64) -> Entry {
    Entry { card, store, price: found.price, url: found.url, in_stock: true, fetched_at: now }
}

pub open spec fn put_all(
    rows: Seq<Entry>,
    card: Seq<char>,
    store: Seq<char>,
    found: Seq<Listing>,
    now: i64,
) -> Seq<Entry>
    decreases found.len(),
{
    if found.len() == 0 {
        rows
    } else {
        put(
            put_all(rows, card, store, found.drop_last(), now),
            found_row(card, store, found.last(), now),
        )
    }
}

pub open spec fn empty_row(card: Seq<char>, store: Seq<char>, now: i64) -> Entry {
    Entry { card, store, price: 0, url: Seq::empty(), in_stock: false, fetched_at: now }
}

/// The listings after a search for a card at a store found `found`.
pub open spec fn with_search(
    rows: Seq<Entry>,
    card: Seq<char>,
    store: Seq<char>,
    found: Seq<Listing>,
    now: i64,
) -> Seq<Entry> {
    let kept = rows.filter(survives(card, store));
    if found.len() == 0 {
        kept.push(empty_row(card, store, now))
    } else {
        put_all(kept, card, store, found, now)
    }
}

pub open spec fn wanted(cards: Seq<Seq<char>>) -> spec_fn(Entry) -> bool {
    |row: Entry| row.in_stock && cards.contains(row.card)
}

pub open spec fn ships_here() -> spec_fn(Entry) -> bool {
    |row: Entry| !blacklisted(seller_of(row.store))
}

impl ListingRow {
    /// The row as a result.
    fn to_result(&self) -> (r: StoreResult)
        ensures
            r@ == self@.listing(),
    {
        StoreResult {
            store_name: self.store_name.clone(),
            card_name: self.card_name.clone(),
            price: self.price,
            url: self.url.clone(),
        }
    }
}

impl Cache {
    /// What the cache answers for a card at a store.  The store acts as a key
    /// prefix: the rows of the store itself and those of its sellers count.
    pub fn lookup(&self, card_name: &str, store_name: &str, now: i64) -> (found: CacheLookup)
        ensures
            found@ == looked_up(self@, card_name@, store_name@, now),
    {
        let ghost all = self@.listings;
        let ghost p = answering(card_name@, store_name@);
        let mut latest: Option<i64> = None;
        let mut results: Vec<StoreResult> = Vec::new();
        let mut i: usize = 0;
        proof {
            lemma_filter_empty(p);
            lemma_filter_empty(stocked());
            assert(all.take(0) =~= Seq::empty());
            assert(listings(results@) =~= as_listings(Seq::empty()));
        }
        while i < self.listings.len()
            invariant
                all == self@.listings,
                p == answering(card_name@, store_name@),
                i <= self.listings@.len(),
                latest == newest(all.take(i as int).filter(p)),
                listings(results@) == as_listings(all.take(i as int).filter(p).filter(stocked())),
            decreases self.listings@.len() - i,
        {
            let row = &self.listings[i];
            let ghost before = all.take(i as int).filter(p);
            let ghost r0 = results@;
            proof {
                lemma_filter_step(all, i as int, p);
                assert(all[i as int] == row@);
                assert(before.push(row@).drop_last() =~= before);
                let more = before.push(row@);
                lemma_filter_step(more, before.len() as int, stocked());
                assert(more.take(before.len() as int) =~= before);
                assert(more.take(before.len() as int + 1) =~= more);
            }
            if same_text(&row.card_name, card_name) && store_goes_by(&row.store_name, store_name) {
                latest = match latest {
                    Some(t) if t >= row.fetched_at => Some(t),
                    _ => Some(row.fetched_at),
                };
                if row.in_stock {
                    let result = row.to_result();
                    results.push(result);
                    proof {
                        assert(listings(results@) =~= listings(r0).push(result@));
                        assert(as_listings(before.filter(stocked()).push(row@)) =~= as_listings(
                            before.filter(stocked()),
                        ).push(row@.listing()));
                    }
                }
            }
            i += 1;
        }
        proof {
            assert(all.take(i as int) =~= all);
            assert(listings(results@).len() == results@.len());
        }
        match latest {
            None => CacheLookup::Search,
            Some(at) => {
                let secs: u64 = age_of(now, at);
                if results.len() == 0 {
                    if secs < NEGATIVE_TTL {
                        CacheLookup::Skip
                    } else {
                        CacheLookup::Search
                    }
                } else if secs >= POSITIVE_TTL {
                    CacheLookup::Search
                } else {
                    CacheLookup::Hit(results)
                }
            },
        }
    }

    /// Adds a row in place of one with the same card, store and link.
    fn put_row(&mut self, row: ListingRow)
        ensures
            final(self)@.listings == put(old(self)@.listings, row@),
            final(self)@.solutions == old(self)@.solutions,
            final(self)@.names == old(self)@.names,
    {
        let new = &row;
        let ghost p = unlike(row@);
        let other = |old_row: &ListingRow| -> (b: bool)
            ensures
                b == (old_row@.card != row@.card || old_row@.store != row@.store || old_row@.url
                    != row@.url),
            {
                !same_text(&old_row.card_name, &new.card_name) || !same_text(
                    &old_row.store_name,
                    &new.store_name,
                ) || !same_text(&old_row.url, &new.url)
            };
        retain_rows(&mut self.listings, other, Ghost(p));
        proof {
            lemma_views_push(self.listings@, row);
        }
        self.listings.push(row);
    }

    /// Records what a search for a card at a store found; an empty search is
    /// recorded as such.
    pub fn store(
        &mut self,
        card_name: &str,
        store_name: &str,
        results: &Vec<StoreResult>,
        now: i64,
    )
        ensures
            final(self)@.listings == with_search(
                old(self)@.listings,
                card_name@,
                store_name@,
                listings(results@),
                now,
            ),
            final(self)@.solutions == old(self)@.solutions,
            final(self)@.names == old(self)@.names,
    {
        let front = match split_at_first(&to_chars(store_name), ':') {
            Some((left, _)) => Some(from_chars(&left)),
            None => None,
        };
        let front_ref = &front;
        let ghost p = survives(card_name@, store_name@);
        let keep = |row: &ListingRow| -> (b: bool)
            ensures
                b == p(row@),
            {
                if !same_text(&row.card_name, card_name) {
                    return true;
                }
                if same_text(&row.store_name, store_name) {
                    return false;
                }
                match front_ref {
                    Some(f) => row.in_stock || !same_text(&row.store_name, f),
                    None => true,
                }
            };
        retain_rows(&mut self.listings, keep, Ghost(p));
        let ghost kept = self@.listings;
        if results.len() == 0 {
            let row = ListingRow {
                card_name: card_name.to_owned(),
                store_name: store_name.to_owned(),
                price: 0,
                url: String::new(),
                in_stock: false,
                fetched_at: now,
            };
            proof {
                lemma_views_push(self.listings@, row);
                assert(row@.url =~= Seq::<char>::empty());
            }
            self.listings.push(row);
            return;
        }
        let ghost all = listings(results@);
        let mut i: usize = 0;
        assert(all.take(0) =~= Seq::empty());
        while i < results.len()
            invariant
                all == listings(results@),
                i <= results@.len(),
                self@.listings == put_all(kept, card_name@, store_name@, all.take(i as int), now),
                self@.solutions == old(self)@.solutions,
                self@.names == old(self)@.names,
            decreases results@.len() - i,
        {
            let ghost t = all.take(i + 1);
            assert(t.drop_last() =~= all.take(i as int));
            assert(t.last() == results@[i as int]@);
            let row = ListingRow {
                card_name: card_name.to_owned(),
                store_name: store_name.to_owned(),
                price: results[i].price,
                url: results[i].url.clone(),
                in_stock: true,
                fetched_at: now,
            };
            assert(row@ == found_row(card_name@, store_name@, t.last(), now));
            self.put_row(row);
            i += 1;
        }
        assert(all.take(i as int) =~= all);
    }

    /// The listings in stock for the given cards.
    pub fn get_listings(&self, card_names: &Vec<String>) -> (found: Vec<StoreResult>)
        ensures
            listings(found@) == as_listings(self@.listings.filter(wanted(texts(card_names@)))),
    {
        let ghost all = self@.listings;
        let ghost names = texts(card_names@);
        let ghost p = wanted(names);
        let mut found: Vec<StoreResult> = Vec::new();
        let mut i: usize = 0;
        proof {
            lemma_filter_empty(p);
            assert(all.take(0) =~= Seq::empty());
            assert(listings(found@) =~= as_listings(Seq::empty()));
        }
        while i < self.listings.len()
            invariant
                all == self@.listings,
                names == texts(card_names@),
                p == wanted(names),
                i <= self.listings@.len(),
                listings(found@) == as_listings(all.take(i as int).filter(p)),
            decreases self.listings@.len() - i,
        {
            let row = &self.listings[i];
            let ghost f0 = found@;
            let ghost before = all.take(i as int).filter(p);
            proof {
                lemma_filter_step(all, i as int, p);
                assert(all[i as int] == row@);
            }
            if row.in_stock && contains_name(card_names, &row.card_name) {
                let result = row.to_result();
                found.push(result);
                proof {
                    assert(listings(found@) =~= listings(f0).push(result@));
                    assert(as_listings(before.push(row@)) =~= as_listings(before).push(
                        row@.listing(),
                    ));
                }
            }
            i += 1;
        }
        assert(all.take(i as int) =~= all);
        found
    }

    /// When the newest listing was fetched.
    pub(crate) fn newest_listing(&self) -> (at: Option<i64>)
        ensures
            at == newest(self@.listings),
    {
        let ghost all = self@.listings;
        let mut latest: Option<i64> = None;
        let mut i: usize = 0;
        assert(all.take(0) =~= Seq::empty());
        while i < self.listings.len()
            invariant
                all == self@.listings,
                i <= self.listings@.len(),
                latest == newest(all.take(i as int)),
            decreases self.listings@.len() - i,
        {
            let row = &self.listings[i];
            proof {
                let t = all.take(i + 1);
                assert(t.drop_last() =~= all.take(i as int));
                assert(t.last() == row@);
            }
            latest = match latest {
                Some(t) if t >= row.fetched_at => Some(t),
                _ => Some(row.fetched_at),
            };
            i += 1;
        }
        assert(all.take(i as int) =~= all);
        latest
    }

    /// Drops the listings of sellers that do not ship here; was there one?
    pub(crate) fn drop_blacklisted(&mut self) -> (any: bool)
        ensures
            final(self)@.listings == old(self)@.listings.filter(ships_here()),
            final(self)@.solutions == old(self)@.solutions,
            final(self)@.names == old(self)@.names,
            any == exists|i: int|
                0 <= i < old(self)@.listings.len() && !#[trigger] ships_here()(
                    old(self)@.listings[i],
                ),
    {
        let ghost all = self@.listings;
        let mut any: bool = false;
        let mut i: usize = 0;
        while i < self.listings.len()
            invariant
                all == self@.listings,
                *self == *old(self),
                i <= self.listings@.len(),
                any == exists|k: int| 0 <= k < i && !#[trigger] ships_here()(all[k]),
            decreases self.listings@.len() - i,
        {
            assert(all[i as int] == self.listings@[i as int]@);
            if is_blacklisted(&extract_seller_name(&self.listings[i].store_name)) {
                assert(!ships_here()(all[i as int]));
                any = true;
            } else {
                assert(ships_here()(all[i as int]));
            }
            i += 1;
        }
        let ghost p = ships_here();
        let keep = |row: &ListingRow| -> (b: bool)
            ensures
                b == p(row@),
            { !is_blacklisted(&extract_seller_name(&row.store_name)) };
        retain_rows(&mut self.listings, keep, Ghost(p));
        any
    }
}

/// Is the name one of the names?
pub fn contains_name(names: &Vec<String>, name: &str) -> (b: bool)
    ensures
        b == texts(names@).contains(name@),
{
    let ghost all = texts(names@);
    let mut i: usize = 0;
    while i < names.len()
        invariant
            all == texts(names@),
            i <= names@.len(),
            forall|k: int| 0 <= k < i ==> #[trigger] all[k] != name@,
        decreases names@.len() - i,
    {
        assert(all[i as int] == names@[i as int]@);
        if same_text(&names[i], name) {
            assert(all.contains(name@));
            return true;
        }
        i += 1;
    }
    false
}

/// A row is no newer than the newest.
proof fn lemma_newest(rows: Seq<Entry>, i: int)
    requires
        0 <= i < rows.len(),
    ensures
        newest(rows) matches Some(at) && at >= rows[i].fetched_at,
    decreases rows.len(),
{
    if i < rows.len() - 1 {
        lemma_newest(rows.drop_last(), i);
    }
}

/// What was found last under a link is among the rows.
proof fn lemma_put_all_has(
    rows: Seq<Entry>,
    card: Seq<char>,
    store: Seq<char>,
    found: Seq<Listing>,
    now: i64,
    i: int,
)
    requires
        0 <= i < found.len(),
        forall|j: int| i < j < found.len() ==> (#[trigger] found[j]).url != found[i].url,
    ensures
        put_all(rows, card, store, found, now).contains(found_row(card, store, found[i], now)),
    decreases found.len(),
{
    let row = found_row(card, store, found[i], now);
    let new = found_row(card, store, found.last(), now);
    let rest = put_all(rows, card, store, found.drop_last(), now);
    let kept = rest.filter(unlike(new));
    if i == found.len() - 1 {
        assert(kept.push(new)[kept.len() as int] == new);
    } else {
        let init = found.drop_last();
        assert forall|j: int| i < j < init.len() implies (#[trigger] init[j]).url != init[i].url by {
            assert(found[j].url != found[i].url);
        }
        lemma_put_all_has(rows, card, store, init, now, i);
        let k = choose|k: int| 0 <= k < rest.len() && rest[k] == row;
        assert(found[found.len() - 1].url != found[i].url);
        rest.lemma_filter_contains(unlike(new), k);
        let m = choose|m: int| 0 <= m < kept.len() && kept[m] == row;
        assert(kept.push(new)[m] == row);
    }
}

/// What a search found reads back for as long as it counts, under the store's
/// own name and under the storefront that the seller belongs to: the answer is a
/// hit that holds every listing found, the last one where a link was found twice.
pub proof fn law_search_reads_back(
    t: Tables,
    u: Tables,
    card: Seq<char>,
    store: Seq<char>,
    key: Seq<char>,
    found: Seq<Listing>,
    now: i64,
    later: i64,
    i: int,
)
    requires
        u.listings == with_search(t.listings, card, store, found, now),
        goes_by(store, key),
        0 <= i < found.len(),
        forall|j: int| i < j < found.len() ==> (#[trigger] found[j]).url != found[i].url,
        age(later, now) < POSITIVE_TTL,
    ensures
        looked_up(u, card, key, later) matches Answer::Hit(hit) && hit.contains(
            found_row(card, store, found[i], now).listing(),
        ),
{
    let kept = t.listings.filter(survives(card, store));
    let row = found_row(card, store, found[i], now);
    lemma_put_all_has(kept, card, store, found, now, i);
    let a = choose|a: int| 0 <= a < u.listings.len() && u.listings[a] == row;
    u.listings.lemma_filter_contains(answering(card, key), a);
    let rows = u.listings.filter(answering(card, key));
    let b = choose|b: int| 0 <= b < rows.len() && rows[b] == row;
    lemma_newest(rows, b);
    rows.lemma_filter_contains(stocked(), b);
    let hits = rows.filter(stocked());
    let c = choose|c: int| 0 <= c < hits.len() && hits[c] == row;
    assert(as_listings(hits)[c] == row.listing());
}

/// A filter that lets through what another one keeps changes nothing for it.
proof fn lemma_filter_both(rows: Seq<Entry>, p: spec_fn(Entry) -> bool, q: spec_fn(Entry) -> bool)
    requires
        forall|i: int| 0 <= i < rows.filter(p).len() ==> q(#[trigger] rows.filter(p)[i]),
    ensures
        rows.filter(q).filter(p) == rows.filter(p),
    decreases rows.len(),
{
    reveal(Seq::filter);
    if rows.len() > 0 {
        let head = rows.drop_last();
        let part = head.filter(p);
        assert forall|i: int| 0 <= i < part.len() implies q(#[trigger] part[i]) by {
            assert(rows.filter(p)[i] == part[i]);
        }
        lemma_filter_both(head, p, q);
        if p(rows.last()) {
            assert(rows.filter(p)[part.len() as int] == rows.last());
        }
        if q(rows.last()) {
            lemma_filter_push(head.filter(q), rows.last(), p);
        }
    }
}

pub open spec fn found_rows(
    card: Seq<char>,
    store: Seq<char>,
    found: Seq<Listing>,
    now: i64,
) -> Seq<Entry> {
    found.map_values(|l: Listing| found_row(card, store, l, now))
}

/// Rows with links of their own follow each other.
proof fn lemma_put_all_exact(
    rows: Seq<Entry>,
    card: Seq<char>,
    store: Seq<char>,
    found: Seq<Listing>,
    now: i64,
    p: spec_fn(Entry) -> bool,
)
    requires
        rows.filter(p).len() == 0,
        forall|l: Listing| p(#[trigger] found_row(card, store, l, now)),
        forall|i: int, j: int|
            0 <= i < j < found.len() ==> (#[trigger] found[i]).url != (#[trigger] found[j]).url,
    ensures
        put_all(rows, card, store, found, now).filter(p) == found_rows(card, store, found, now),
    decreases found.len(),
{
    if found.len() == 0 {
        assert(rows.filter(p) =~= found_rows(card, store, found, now));
    } else {
        let init = found.drop_last();
        let new = found_row(card, store, found.last(), now);
        let rest = put_all(rows, card, store, init, now);
        assert forall|i: int, j: int| 0 <= i < j < init.len() implies (#[trigger] init[i]).url != (
        #[trigger] init[j]).url by {
            assert(found[i].url != found[j].url);
        }
        lemma_put_all_exact(rows, card, store, init, now, p);
        let q = unlike(new);
        assert forall|i: int| 0 <= i < rest.filter(p).len() implies q(
            #[trigger] rest.filter(p)[i],
        ) by {
            assert(found[i].url != found[found.len() - 1].url);
            assert(found_rows(card, store, init, now)[i].url == found[i].url);
        }
        lemma_filter_both(rest, p, q);
        lemma_filter_push(rest.filter(q), new, p);
        assert(found_rows(card, store, found, now) =~= found_rows(card, store, init, now).push(
            new,
        ));
    }
}

proof fn lemma_all_stocked(rows: Seq<Entry>)
    requires
        forall|i: int| 0 <= i < rows.len() ==> (#[trigger] rows[i]).in_stock,
    ensures
        rows.filter(stocked()) == rows,
    decreases rows.len(),
{
    reveal(Seq::filter);
    if rows.len() > 0 {
        let rest = rows.drop_last();
        assert forall|i: int| 0 <= i < rest.len() implies (#[trigger] rest[i]).in_stock by {
            assert(rows[i].in_stock);
        }
        lemma_all_stocked(rest);
        assert(rows[rows.len() - 1].in_stock);
        assert(rest.push(rows.last()) =~= rows);
    }
}

/// Where no seller of the store has the card under a name of its own and every
/// listing has its own link, what a search found reads back exactly, for as long
/// as it counts: nothing earlier is left.
pub proof fn law_search_reads_back_exactly(
    t: Tables,
    u: Tables,
    card: Seq<char>,
    store: Seq<char>,
    found: Seq<Listing>,
    now: i64,
    later: i64,
)
    requires
        u.listings == with_search(t.listings, card, store, found, now),
        found.len() > 0,
        forall|i: int, j: int|
            0 <= i < j < found.len() ==> (#[trigger] found[i]).url != (#[trigger] found[j]).url,
        forall|i: int|
            0 <= i < t.listings.len() && answering(card, store)(#[trigger] t.listings[i])
                ==> t.listings[i].store == store,
        age(later, now) < POSITIVE_TTL,
    ensures
        looked_up(u, card, store, later) == Answer::Hit(
            as_listings(found_rows(card, store, found, now)),
        ),
{
    let p = answering(card, store);
    let kept = t.listings.filter(survives(card, store));
    if kept.filter(p).len() > 0 {
        let row = kept.filter(p)[0];
        kept.lemma_filter_pred(p, 0);
        lemma_from_filter(kept, p, 0);
        let b = choose|b: int| 0 <= b < kept.len() && kept[b] == row;
        t.listings.lemma_filter_pred(survives(card, store), b);
        lemma_from_filter(t.listings, survives(card, store), b);
        let c = choose|c: int| 0 <= c < t.listings.len() && t.listings[c] == row;
        assert(p(t.listings[c]));
    }
    lemma_put_all_exact(kept, card, store, found, now, p);
    let rows = found_rows(card, store, found, now);
    lemma_all_stocked(rows);
    lemma_all_now(rows, now);
}

proof fn lemma_all_now(rows: Seq<Entry>, now: i64)
    requires
        rows.len() > 0,
        forall|i: int| 0 <= i < rows.len() ==> (#[trigger] rows[i]).fetched_at == now,
    ensures
        newest(rows) == Some(now),
    decreases rows.len(),
{
    let rest = rows.drop_last();
    assert(rows[rows.len() - 1].fetched_at == now);
    if rest.len() > 0 {
        assert forall|i: int| 0 <= i < rest.len() implies (#[trigger] rest[i]).fetched_at == now by {
            assert(rows[i].fetched_at == now);
        }
        lemma_all_now(rest, now);
    }
}

/// An empty search reads back as one for a day, unless another seller of the
/// storefront has the card in stock.
pub proof fn law_empty_search_reads_back(
    t: Tables,
    u: Tables,
    card: Seq<char>,
    store: Seq<char>,
    now: i64,
    later: i64,
)
    requires
        u.listings == with_search(t.listings, card, store, Seq::empty(), now),
        forall|i: int|
            0 <= i < t.listings.len() && (#[trigger] t.listings[i]).in_stock && answering(
                card,
                store,
            )(t.listings[i]) ==> t.listings[i].store == store,
        age(later, now) < NEGATIVE_TTL,
    ensures
        looked_up(u, card, store, later) is Skip,
{
    let kept = t.listings.filter(survives(card, store));
    let empty = empty_row(card, store, now);
    let p = answering(card, store);
    lemma_filter_push(kept, empty, p);
    let rest = kept.filter(p);
    let rows = rest.push(empty);
    assert(u.listings.filter(p) == rows);
    lemma_newest(rows, rest.len() as int);
    let hits = rows.filter(stocked());
    if hits.len() > 0 {
        rows.lemma_filter_pred(stocked(), 0);
        lemma_from_filter(rows, stocked(), 0);
        let row = hits[0];
        let a = choose|a: int| 0 <= a < rows.len() && rows[a] == row;
        assert(rest[a] == row);
        kept.lemma_filter_pred(p, a);
        lemma_from_filter(kept, p, a);
        let b = choose|b: int| 0 <= b < kept.len() && kept[b] == row;
        t.listings.lemma_filter_pred(survives(card, store), b);
        lemma_from_filter(t.listings, survives(card, store), b);
        let c = choose|c: int| 0 <= c < t.listings.len() && t.listings[c] == row;
        assert(t.listings[c].in_stock);
    }
}

/// What a filter lets through was there before.
proof fn lemma_from_filter(rows: Seq<Entry>, p: spec_fn(Entry) -> bool, i: int)
    requires
        0 <= i < rows.filter(p).len(),
    ensures
        rows.contains(rows.filter(p)[i]),
    decreases rows.len(),
{
    reveal(Seq::filter);
    if rows.len() > 0 {
        let rest = rows.drop_last().filter(p);
        if i < rest.len() {
            lemma_from_filter(rows.drop_last(), p, i);
            let k = choose|k: int| 0 <= k < rows.drop_last().len() && rows.drop_last()[k] == rest[i];
            assert(rows[k] == rest[i]);
        } else {
            assert(rows[rows.len() - 1] == rows.last());
        }
    }
}

/// A search leaves the answers for other cards as they were, and those for the
/// same card at other storefronts.
pub proof fn law_search_leaves_others(
    t: Tables,
    u: Tables,
    card: Seq<char>,
    store: Seq<char>,
    found: Seq<Listing>,
    now: i64,
    other: Seq<char>,
    key: Seq<char>,
    later: i64,
)
    requires
        u.listings == with_search(t.listings, card, store, found, now),
        other != card || (!goes_by(store, key) && (split_once(store, ':') matches Some(sides)
            ==> !goes_by(sides.0, key))),
    ensures
        looked_up(u, other, key, later) == looked_up(t, other, key, later),
{
    let p = answering(other, key);
    let kept = t.listings.filter(survives(card, store));
    lemma_filter_twice(t.listings, survives(card, store), p);
    if found.len() == 0 {
        lemma_filter_push(kept, empty_row(card, store, now), p);
    } else {
        lemma_put_all_elsewhere(kept, card, store, found, now, p);
    }
}

proof fn lemma_put_all_elsewhere(
    rows: Seq<Entry>,
    card: Seq<char>,
    store: Seq<char>,
    found: Seq<Listing>,
    now: i64,
    p: spec_fn(Entry) -> bool,
)
    requires
        forall|e: Entry| #[trigger] p(e) ==> e.card != card || e.store != store,
    ensures
        put_all(rows, card, store, found, now).filter(p) == rows.filter(p),
    decreases found.len(),
{
    if found.len() > 0 {
        let rest = put_all(rows, card, store, found.drop_last(), now);
        let new = found_row(card, store, found.last(), now);
        lemma_put_all_elsewhere(rows, card, store, found.drop_last(), now, p);
        lemma_filter_twice(rest, unlike(new), p);
        lemma_filter_push(rest.filter(unlike(new)), new, p);
    }
}

} // verus!
