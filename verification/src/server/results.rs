//! Results as the API returns them.

use crate::cache::listings::{contains_name, looked_up, Answer};
use crate::cache::{Cache, CacheLookup, Tables};
use crate::html::{copy_texts, opt_text};
use crate::order::{
    by_rank, law_stable_sorted, lemma_sorted_map, sort_by_rank, stable_sorted, Ranked,
};
use crate::rows::{lemma_views_push, views};
use crate::stores::{listings, Listing, StoreResult};
use crate::text::{after_prefix, begins, same_text, starts_with, texts};
use crate::wizard::solution::{line_view, lines, CardAssignment, CardLine, WizardSolution};
use vstd::prelude::*;

verus! {

/// A store as the API names it: the seller and the CardMarket category, or the
/// storefront without one.
pub open spec fn api_store(store: Seq<char>) -> (Seq<char>, Option<Seq<char>>) {
    if starts_with(store, "cardmarket-int-private.com: "@) {
        (store.skip("cardmarket-int-private.com: "@.len() as int), Some("p"@))
    } else if starts_with(store, "cardmarket-int.com: "@) {
        (store.skip("cardmarket-int.com: "@.len() as int), Some("i"@))
    } else if starts_with(store, "cardmarket.com: "@) {
        (store.skip("cardmarket.com: "@.len() as int), Some("n"@))
    } else {
        (store, None)
    }
}

pub open spec fn opt_label(category: Option<&'static str>) -> Option<Seq<char>> {
    match category {
        Some(c) => Some(c@),
        None => None,
    }
}

/// The seller name and the category: "n" (Norwegian), "i" (international
/// powerseller), "p" (international private), or none for other stores.
pub fn split_cm_store(store_name: &str) -> (split: (String, Option<&'static str>))
    ensures
        (split.0@, opt_label(split.1)) == api_store(store_name@),
{
    if let Some(seller) = after_prefix(store_name, "cardmarket-int-private.com: ") {
        (seller, Some("p"))
    } else if let Some(seller) = after_prefix(store_name, "cardmarket-int.com: ") {
        (seller, Some("i"))
    } else if let Some(seller) = after_prefix(store_name, "cardmarket.com: ") {
        (seller, Some("n"))
    } else {
        (store_name.to_owned(), None)
    }
}

/// The full name of a store that the API names so.
pub open spec fn full_name(seller: Seq<char>, category: Option<Seq<char>>) -> Seq<char> {
    if category == Some("p"@) {
        "cardmarket-int-private.com: "@ + seller
    } else if category == Some("i"@) {
        "cardmarket-int.com: "@ + seller
    } else if category == Some("n"@) {
        "cardmarket.com: "@ + seller
    } else {
        seller
    }
}

/// The full store name can be had back from the seller and the category.
pub proof fn law_store_name_round_trip(store: Seq<char>)
    ensures
        full_name(api_store(store).0, api_store(store).1) == store,
{
    reveal_strlit("p");
    reveal_strlit("i");
    reveal_strlit("n");
    assert("p"@[0] != "i"@[0] && "p"@[0] != "n"@[0] && "i"@[0] != "n"@[0]);
    assert(full_name(api_store(store).0, api_store(store).1) =~= store);
}

pub struct CardResultEntry {
    /// Seller name for CardMarket, domain for storefronts.
    pub store: String,
    /// Price in oere.
    pub price: u32,
    pub url: String,
    /// CardMarket category; none for other stores.
    pub category: Option<&'static str>,
}

/// A `CardResultEntry` as plain values.
pub struct ApiEntry {
    pub store: Seq<char>,
    pub price: u32,
    pub url: Seq<char>,
    pub category: Option<Seq<char>>,
}

impl View for CardResultEntry {
    type V = ApiEntry;

    open spec fn view(&self) -> ApiEntry {
        ApiEntry {
            store: self.store@,
            price: self.price,
            url: self.url@,
            category: opt_label(self.category),
        }
    }
}

impl Ranked for CardResultEntry {
    open spec fn rank(&self) -> int {
        self.price as int
    }

    fn get_rank(&self) -> (r: u64) {
        self.price as u64
    }
}

/// A listing as the API returns it.
pub open spec fn entry_of(r: Listing) -> ApiEntry {
    ApiEntry {
        store: api_store(r.store).0,
        price: r.price,
        url: r.url,
        category: api_store(r.store).1,
    }
}

impl CardResultEntry {
    /// A result as the API returns it.
    pub fn from(r: StoreResult) -> (entry: Self)
        ensures
            entry@ == entry_of(r@),
    {
        let (store, category) = split_cm_store(&r.store_name);
        CardResultEntry { store, price: r.price, url: r.url, category }
    }

    fn duplicate(&self) -> (copy: Self)
        ensures
            copy@ == self@,
    {
        CardResultEntry {
            store: self.store.clone(),
            price: self.price,
            url: self.url.clone(),
            category: self.category,
        }
    }
}

/// The results for one card.
pub struct CardGroup {
    pub card: String,
    pub entries: Vec<CardResultEntry>,
}

impl View for CardGroup {
    type V = (Seq<char>, Seq<ApiEntry>);

    open spec fn view(&self) -> (Seq<char>, Seq<ApiEntry>) {
        (self.card@, views(self.entries@))
    }
}

pub struct FetchResultData {
    /// The results of each card that has some.
    pub results: Vec<CardGroup>,
    /// Card names that could not be resolved.
    pub unrecognized: Vec<String>,
}

pub struct WizardResultData {
    /// The solutions, best first.
    pub results: Vec<WizardResponseData>,
    pub unrecognized: Vec<String>,
}

pub enum JobResult {
    Fetch(FetchResultData),
    Wizard(WizardResultData),
}

/// An entry with the card and the store endpoint that it is for.
pub struct Tagged {
    pub card: String,
    pub key: String,
    pub entry: CardResultEntry,
}

/// A `Tagged` as plain values.
pub struct Tag {
    pub card: Seq<char>,
    pub key: Seq<char>,
    pub entry: ApiEntry,
}

impl View for Tagged {
    type V = Tag;

    open spec fn view(&self) -> Tag {
        Tag { card: self.card@, key: self.key@, entry: self.entry@ }
    }
}

/// The cards, each once, in order of appearance.
pub open spec fn cards_of(tags: Seq<Tag>) -> Seq<Seq<char>>
    decreases tags.len(),
{
    if tags.len() == 0 {
        Seq::empty()
    } else {
        let rest = cards_of(tags.drop_last());
        if rest.contains(tags.last().card) {
            rest
        } else {
            rest.push(tags.last().card)
        }
    }
}

/// The endpoints with results for a card, each once, in order of appearance.
pub open spec fn keys_of(tags: Seq<Tag>, card: Seq<char>) -> Seq<Seq<char>>
    decreases tags.len(),
{
    if tags.len() == 0 {
        Seq::empty()
    } else {
        let rest = keys_of(tags.drop_last(), card);
        if tags.last().card != card || rest.contains(tags.last().key) {
            rest
        } else {
            rest.push(tags.last().key)
        }
    }
}

/// The entries for a card at an endpoint, in order.
pub open spec fn entries_at(tags: Seq<Tag>, card: Seq<char>, key: Seq<char>) -> Seq<ApiEntry>
    decreases tags.len(),
{
    if tags.len() == 0 {
        Seq::empty()
    } else {
        let rest = entries_at(tags.drop_last(), card, key);
        if tags.last().card == card && tags.last().key == key {
            rest.push(tags.last().entry)
        } else {
            rest
        }
    }
}

pub open spec fn by_price() -> spec_fn(ApiEntry) -> int {
    |e: ApiEntry| e.price as int
}

/// The cheapest entries, at most `max` of them; 0 means all, as they are.
pub open spec fn capped(entries: Seq<ApiEntry>, max: usize) -> Seq<ApiEntry> {
    if max == 0 {
        entries
    } else {
        let sorted = stable_sorted(entries, by_price());
        if sorted.len() > max {
            sorted.take(max as int)
        } else {
            sorted
        }
    }
}

/// The capped entries of a card at the endpoints.
pub open spec fn capped_all(
    tags: Seq<Tag>,
    card: Seq<char>,
    keys: Seq<Seq<char>>,
    max: usize,
) -> Seq<ApiEntry>
    decreases keys.len(),
{
    if keys.len() == 0 {
        Seq::empty()
    } else {
        capped_all(tags, card, keys.drop_last(), max) + capped(
            entries_at(tags, card, keys.last()),
            max,
        )
    }
}

/// The entries by card, capped per endpoint.
pub open spec fn grouped(tags: Seq<Tag>, max: usize) -> Seq<(Seq<char>, Seq<ApiEntry>)> {
    cards_of(tags).map_values(
        |card: Seq<char>| (card, capped_all(tags, card, keys_of(tags, card), max)),
    )
}

/// A cap keeps as many entries as it allows, cheapest first, and leaves out none
/// that is cheaper than one it keeps.
pub proof fn law_cap(entries: Seq<ApiEntry>, max: usize)
    requires
        max > 0,
    ensures
        capped(entries, max).len() == if entries.len() > max {
            max as nat
        } else {
            entries.len()
        },
        forall|a: int, b: int|
            0 <= a <= b < capped(entries, max).len() ==> (#[trigger] capped(entries, max)[a]).price
                <= (#[trigger] capped(entries, max)[b]).price,
        forall|i: int, e: ApiEntry|
            0 <= i < capped(entries, max).len() && entries.contains(e) && !capped(
                entries,
                max,
            ).contains(e) ==> (#[trigger] capped(entries, max)[i]).price <= (#[trigger] e.price),
{
    law_stable_sorted(entries, by_price());
    let sorted = stable_sorted(entries, by_price());
    let kept = capped(entries, max);
    assert forall|a: int, b: int| 0 <= a <= b < kept.len() implies (#[trigger] kept[a]).price <= (
    #[trigger] kept[b]).price by {
        assert(kept[a] == sorted[a] && kept[b] == sorted[b]);
        assert(by_price()(sorted[a]) <= by_price()(sorted[b]));
    }
    assert forall|i: int, e: ApiEntry|
        0 <= i < kept.len() && entries.contains(e) && !kept.contains(e) implies (
    #[trigger] kept[i]).price <= (#[trigger] e.price) by {
        assert(sorted.contains(e));
        let k = choose|k: int| 0 <= k < sorted.len() && sorted[k] == e;
        if k < kept.len() {
            assert(kept[k] == e);
        }
        assert(kept[i] == sorted[i]);
        assert(by_price()(sorted[i]) <= by_price()(sorted[k]));
    }
}

fn distinct_cards(tagged: &Vec<Tagged>) -> (cards: Vec<String>)
    ensures
        texts(cards@) == cards_of(views(tagged@)),
{
    let ghost all = views(tagged@);
    let mut cards: Vec<String> = Vec::new();
    let mut i: usize = 0;
    assert(all.take(0) =~= Seq::empty());
    assert(texts(cards@) =~= Seq::empty());
    while i < tagged.len()
        invariant
            all == views(tagged@),
            i <= tagged@.len(),
            texts(cards@) == cards_of(all.take(i as int)),
        decreases tagged@.len() - i,
    {
        proof {
            let t = all.take(i + 1);
            assert(t.drop_last() =~= all.take(i as int));
            assert(t.last() == tagged@[i as int]@);
        }
        if !contains_name(&cards, &tagged[i].card) {
            let ghost c0 = cards@;
            cards.push(tagged[i].card.clone());
            assert(texts(cards@) =~= texts(c0).push(tagged@[i as int].card@));
        }
        i += 1;
    }
    assert(all.take(i as int) =~= all);
    cards
}

fn distinct_keys(tagged: &Vec<Tagged>, card: &str) -> (keys: Vec<String>)
    ensures
        texts(keys@) == keys_of(views(tagged@), card@),
{
    let ghost all = views(tagged@);
    let mut keys: Vec<String> = Vec::new();
    let mut i: usize = 0;
    assert(all.take(0) =~= Seq::empty());
    assert(texts(keys@) =~= Seq::empty());
    while i < tagged.len()
        invariant
            all == views(tagged@),
            i <= tagged@.len(),
            texts(keys@) == keys_of(all.take(i as int), card@),
        decreases tagged@.len() - i,
    {
        proof {
            let t = all.take(i + 1);
            assert(t.drop_last() =~= all.take(i as int));
            assert(t.last() == tagged@[i as int]@);
        }
        if same_text(&tagged[i].card, card) && !contains_name(&keys, &tagged[i].key) {
            let ghost k0 = keys@;
            keys.push(tagged[i].key.clone());
            assert(texts(keys@) =~= texts(k0).push(tagged@[i as int].key@));
        }
        i += 1;
    }
    assert(all.take(i as int) =~= all);
    keys
}

fn pick_entries(tagged: &Vec<Tagged>, card: &str, key: &str) -> (entries: Vec<CardResultEntry>)
    ensures
        views(entries@) == entries_at(views(tagged@), card@, key@),
{
    let ghost all = views(tagged@);
    let mut entries: Vec<CardResultEntry> = Vec::new();
    let mut i: usize = 0;
    assert(all.take(0) =~= Seq::empty());
    assert(views(entries@) =~= Seq::empty());
    while i < tagged.len()
        invariant
            all == views(tagged@),
            i <= tagged@.len(),
            views(entries@) == entries_at(all.take(i as int), card@, key@),
        decreases tagged@.len() - i,
    {
        proof {
            let t = all.take(i + 1);
            assert(t.drop_last() =~= all.take(i as int));
            assert(t.last() == tagged@[i as int]@);
        }
        if same_text(&tagged[i].card, card) && same_text(&tagged[i].key, key) {
            let copy = tagged[i].entry.duplicate();
            proof {
                lemma_views_push(entries@, copy);
            }
            entries.push(copy);
        }
        i += 1;
    }
    assert(all.take(i as int) =~= all);
    entries
}

/// The cheapest entries, at most `max` of them; 0 means all, as they are.
pub fn cap_entries(entries: Vec<CardResultEntry>, max: usize) -> (kept: Vec<CardResultEntry>)
    ensures
        views(kept@) == capped(views(entries@), max),
{
    if max == 0 {
        return entries;
    }
    proof {
        lemma_sorted_map(
            entries@,
            by_rank::<CardResultEntry>(),
            |e: CardResultEntry| e@,
            by_price(),
        );
    }
    let mut sorted = sort_by_rank(entries);
    let ghost whole = sorted@;
    assert(views(whole).len() == whole.len());
    if sorted.len() > max {
        sorted.truncate(max);
        assert(views(sorted@) =~= views(whole).take(max as int));
    }
    sorted
}

/// The entries by card, capped per endpoint.
pub fn group_entries(tagged: &Vec<Tagged>, max: usize) -> (groups: Vec<CardGroup>)
    ensures
        views(groups@) == grouped(views(tagged@), max),
{
    let ghost tags = views(tagged@);
    let cards = distinct_cards(tagged);
    let ghost names = cards_of(tags);
    let ghost f = |card: Seq<char>| (card, capped_all(tags, card, keys_of(tags, card), max));
    let mut groups: Vec<CardGroup> = Vec::new();
    let mut i: usize = 0;
    assert(views(groups@) =~= names.take(0).map_values(f));
    while i < cards.len()
        invariant
            tags == views(tagged@),
            names == texts(cards@),
            f == (|card: Seq<char>| (card, capped_all(tags, card, keys_of(tags, card), max))),
            i <= cards@.len(),
            views(groups@) == names.take(i as int).map_values(f),
        decreases cards@.len() - i,
    {
        let card = &cards[i];
        let keys = distinct_keys(tagged, card);
        let ghost ks = texts(keys@);
        let mut entries: Vec<CardResultEntry> = Vec::new();
        let mut k: usize = 0;
        assert(ks.take(0) =~= Seq::empty());
        assert(views(entries@) =~= Seq::empty());
        while k < keys.len()
            invariant
                tags == views(tagged@),
                ks == texts(keys@),
                k <= keys@.len(),
                views(entries@) == capped_all(tags, card@, ks.take(k as int), max),
            decreases keys@.len() - k,
        {
            proof {
                let t = ks.take(k + 1);
                assert(t.drop_last() =~= ks.take(k as int));
                assert(t.last() == keys@[k as int]@);
            }
            let ghost e0 = entries@;
            let mut more = cap_entries(pick_entries(tagged, card, &keys[k]), max);
            let ghost m0 = more@;
            entries.append(&mut more);
            assert(views(entries@) =~= views(e0) + views(m0));
            k += 1;
        }
        assert(ks.take(k as int) =~= ks);
        let group = CardGroup { card: card.clone(), entries };
        proof {
            lemma_views_push(groups@, group);
            assert(names[i as int] == card@);
            assert(names.take(i + 1).map_values(f) =~= names.take(i as int).map_values(f).push(
                f(names[i as int]),
            ));
        }
        groups.push(group);
        i += 1;
    }
    assert(names.take(i as int) =~= names);
    groups
}

/// The endpoint that a store's results count towards: CardMarket's sellers
/// collapse to their endpoint, other stores are their own.
pub open spec fn endpoint(store: Seq<char>) -> Seq<char> {
    if starts_with(store, "cardmarket-int-private.com"@) {
        "cardmarket-int-private.com"@
    } else if starts_with(store, "cardmarket-int.com"@) {
        "cardmarket-int.com"@
    } else if starts_with(store, "cardmarket.com"@) {
        "cardmarket.com"@
    } else {
        store
    }
}

/// The endpoint that a store's results count towards.
pub fn store_cache_key(store_name: &str) -> (key: String)
    ensures
        key@ == endpoint(store_name@),
{
    if begins(store_name, "cardmarket-int-private.com") {
        "cardmarket-int-private.com".to_owned()
    } else if begins(store_name, "cardmarket-int.com") {
        "cardmarket-int.com".to_owned()
    } else if begins(store_name, "cardmarket.com") {
        "cardmarket.com".to_owned()
    } else {
        store_name.to_owned()
    }
}

/// Results with their cards and endpoints.
pub open spec fn tags_of(found: Seq<Listing>) -> Seq<Tag> {
    found.map_values(
        |r: Listing| Tag { card: r.card, key: endpoint(r.store), entry: entry_of(r) },
    )
}

/// Fetched results by card, capped per endpoint.
pub fn group_fetched(results: &Vec<StoreResult>, max: usize) -> (groups: Vec<CardGroup>)
    ensures
        views(groups@) == grouped(tags_of(listings(results@)), max),
{
    let ghost all = listings(results@);
    let mut tagged: Vec<Tagged> = Vec::new();
    let mut i: usize = 0;
    assert(views(tagged@) =~= tags_of(all.take(0)));
    while i < results.len()
        invariant
            all == listings(results@),
            i <= results@.len(),
            views(tagged@) == tags_of(all.take(i as int)),
        decreases results@.len() - i,
    {
        let r = results[i].duplicate();
        let ghost row = r@;
        let card = r.card_name.clone();
        let key = store_cache_key(&r.store_name);
        let new = Tagged { card, key, entry: CardResultEntry::from(r) };
        proof {
            lemma_views_push(tagged@, new);
            assert(all[i as int] == row);
            assert(tags_of(all.take(i + 1)) =~= tags_of(all.take(i as int)).push(new@));
        }
        tagged.push(new);
        i += 1;
    }
    assert(all.take(i as int) =~= all);
    group_entries(&tagged, max)
}

/// Every card with a key, in order.
pub open spec fn card_pairs(cards: Seq<Seq<char>>, key: Seq<char>) -> Seq<(Seq<char>, Seq<char>)> {
    cards.map_values(|card: Seq<char>| (card, key))
}

/// Every card with every key, key by key.
pub open spec fn key_pairs(cards: Seq<Seq<char>>, keys: Seq<Seq<char>>) -> Seq<
    (Seq<char>, Seq<char>),
>
    decreases keys.len(),
{
    if keys.len() == 0 {
        Seq::empty()
    } else {
        key_pairs(cards, keys.drop_last()) + card_pairs(cards, keys.last())
    }
}

/// Every card with every key of the stores, store by store.
pub open spec fn store_pairs(
    cards: Seq<Seq<char>>,
    keys: Seq<Vec<String>>,
    stores: Seq<usize>,
) -> Seq<(Seq<char>, Seq<char>)>
    decreases stores.len(),
{
    if stores.len() == 0 {
        Seq::empty()
    } else {
        store_pairs(cards, keys, stores.drop_last()) + key_pairs(
            cards,
            texts(keys[stores.last() as int]@),
        )
    }
}

pub open spec fn pair_views(v: Seq<(String, String)>) -> Seq<(Seq<char>, Seq<char>)> {
    v.map_values(|p: (String, String)| (p.0@, p.1@))
}

/// The pairs of a card and a cache key that a request asks for.
pub fn all_cache_pairs(
    cards: &Vec<String>,
    keys: &Vec<Vec<String>>,
    stores: &Vec<usize>,
) -> (pairs: Vec<(String, String)>)
    requires
        forall|i: int| 0 <= i < stores@.len() ==> (#[trigger] stores@[i]) < keys@.len(),
    ensures
        pair_views(pairs@) == store_pairs(texts(cards@), keys@, stores@),
{
    let ghost names = texts(cards@);
    let mut pairs: Vec<(String, String)> = Vec::new();
    let mut s: usize = 0;
    assert(stores@.take(0) =~= Seq::empty());
    assert(pair_views(pairs@) =~= Seq::empty());
    while s < stores.len()
        invariant
            names == texts(cards@),
            forall|i: int| 0 <= i < stores@.len() ==> (#[trigger] stores@[i]) < keys@.len(),
            s <= stores@.len(),
            pair_views(pairs@) == store_pairs(names, keys@, stores@.take(s as int)),
        decreases stores@.len() - s,
    {
        let ghost base = pair_views(pairs@);
        proof {
            let t = stores@.take(s + 1);
            assert(t.drop_last() =~= stores@.take(s as int));
            assert(t.last() == stores@[s as int]);
        }
        let own = &keys[stores[s]];
        let ghost ks = texts(own@);
        let mut k: usize = 0;
        assert(ks.take(0) =~= Seq::empty());
        assert(base + key_pairs(names, ks.take(0)) =~= base);
        while k < own.len()
            invariant
                names == texts(cards@),
                ks == texts(own@),
                k <= own@.len(),
                pair_views(pairs@) == base + key_pairs(names, ks.take(k as int)),
            decreases own@.len() - k,
        {
            let ghost inner = pair_views(pairs@);
            proof {
                let t = ks.take(k + 1);
                assert(t.drop_last() =~= ks.take(k as int));
                assert(t.last() == own@[k as int]@);
            }
            let mut c: usize = 0;
            assert(inner + card_pairs(names.take(0), ks[k as int]) =~= inner);
            while c < cards.len()
                invariant
                    names == texts(cards@),
                    ks == texts(own@),
                    k < own@.len(),
                    c <= cards@.len(),
                    pair_views(pairs@) == inner + card_pairs(names.take(c as int), ks[k as int]),
                decreases cards@.len() - c,
            {
                let ghost p0 = pairs@;
                pairs.push((cards[c].clone(), own[k].clone()));
                proof {
                    assert(pair_views(pairs@) =~= pair_views(p0).push(
                        (names[c as int], ks[k as int]),
                    ));
                    assert(card_pairs(names.take(c + 1), ks[k as int]) =~= card_pairs(
                        names.take(c as int),
                        ks[k as int],
                    ).push((names[c as int], ks[k as int])));
                    assert(pair_views(pairs@) =~= inner + card_pairs(
                        names.take(c + 1),
                        ks[k as int],
                    ));
                }
                c += 1;
            }
            assert(names.take(c as int) =~= names);
            assert(pair_views(pairs@) =~= base + key_pairs(names, ks.take(k + 1)));
            k += 1;
        }
        assert(ks.take(k as int) =~= ks);
        s += 1;
    }
    assert(stores@.take(s as int) =~= stores@);
    pairs
}

/// Cached results with the card and key that they were asked for under.
pub open spec fn hit_tags(card: Seq<char>, key: Seq<char>, found: Seq<Listing>) -> Seq<Tag> {
    found.map_values(|r: Listing| Tag { card, key, entry: entry_of(r) })
}

/// What the cache has for the pairs.
pub open spec fn cached_tags(t: Tables, pairs: Seq<(Seq<char>, Seq<char>)>, now: i64) -> Seq<Tag>
    decreases pairs.len(),
{
    if pairs.len() == 0 {
        Seq::empty()
    } else {
        let rest = cached_tags(t, pairs.drop_last(), now);
        match looked_up(t, pairs.last().0, pairs.last().1, now) {
            Answer::Hit(found) => rest + hit_tags(pairs.last().0, pairs.last().1, found),
            _ => rest,
        }
    }
}

/// The cache answers for every pair.
pub open spec fn all_cached(t: Tables, pairs: Seq<(Seq<char>, Seq<char>)>, now: i64) -> bool {
    forall|i: int|
        0 <= i < pairs.len() ==> !(looked_up(t, (#[trigger] pairs[i]).0, pairs[i].1, now) is Search)
}

/// Adds what a lookup found.
fn add_hits(tagged: &mut Vec<Tagged>, card: &str, key: &str, found: Vec<StoreResult>)
    ensures
        views(final(tagged)@) == views(old(tagged)@) + hit_tags(card@, key@, listings(found@)),
{
    let ghost all = listings(found@);
    let ghost base = views(tagged@);
    let mut rest = found;
    let ghost mut done: int = 0;
    assert(base + hit_tags(card@, key@, all.take(0)) =~= base);
    assert(all.skip(0) =~= all);
    while rest.len() > 0
        invariant
            0 <= done <= all.len(),
            listings(rest@) == all.skip(done),
            views(tagged@) == base + hit_tags(card@, key@, all.take(done)),
        decreases rest@.len(),
    {
        let ghost before = rest@;
        let r = rest.remove(0);
        let ghost row = r@;
        let new = Tagged {
            card: card.to_owned(),
            key: key.to_owned(),
            entry: CardResultEntry::from(r),
        };
        proof {
            assert(listings(before).len() == before.len());
            assert(listings(before)[0] == row);
            assert(all.skip(done)[0] == all[done]);
            assert(listings(rest@) =~= listings(before).skip(1));
            assert(all.skip(done + 1) =~= all.skip(done).skip(1));
            lemma_views_push(tagged@, new);
            assert(hit_tags(card@, key@, all.take(done + 1)) =~= hit_tags(
                card@,
                key@,
                all.take(done),
            ).push(new@));
            assert(base + hit_tags(card@, key@, all.take(done + 1)) =~= (base + hit_tags(
                card@,
                key@,
                all.take(done),
            )).push(new@));
            done = done + 1;
        }
        tagged.push(new);
    }
    proof {
        assert(listings(rest@).len() == 0);
        assert(all.take(done) =~= all);
    }
}

/// What the cache has for the pairs, by card, capped per endpoint, and whether it
/// answers for every pair.
fn serve_pairs(cache: &Cache, pairs: &Vec<(String, String)>, max: usize, now: i64) -> (served: (
    Vec<CardGroup>,
    bool,
))
    ensures
        views(served.0@) == grouped(cached_tags(cache@, pair_views(pairs@), now), max),
        served.1 == all_cached(cache@, pair_views(pairs@), now),
{
    let ghost all = pair_views(pairs@);
    let mut tagged: Vec<Tagged> = Vec::new();
    let mut complete: bool = true;
    let mut i: usize = 0;
    assert(all.take(0) =~= Seq::empty());
    assert(views(tagged@) =~= Seq::empty());
    while i < pairs.len()
        invariant
            all == pair_views(pairs@),
            i <= pairs@.len(),
            views(tagged@) == cached_tags(cache@, all.take(i as int), now),
            complete == forall|k: int|
                0 <= k < i ==> !(looked_up(cache@, (#[trigger] all[k]).0, all[k].1, now) is Search),
        decreases pairs@.len() - i,
    {
        proof {
            let t = all.take(i + 1);
            assert(t.drop_last() =~= all.take(i as int));
            assert(t.last() == all[i as int]);
            assert(all[i as int] == (pairs@[i as int].0@, pairs@[i as int].1@));
        }
        match cache.lookup(&pairs[i].0, &pairs[i].1, now) {
            CacheLookup::Hit(found) => {
                add_hits(&mut tagged, &pairs[i].0, &pairs[i].1, found);
            },
            CacheLookup::Skip => {},
            CacheLookup::Search => {
                complete = false;
            },
        }
        i += 1;
    }
    assert(all.take(i as int) =~= all);
    (group_entries(&tagged, max), complete)
}

/// Whatever the cache has for a request.
pub fn serve_cache_partial(
    cache: &Cache,
    cards: &Vec<String>,
    keys: &Vec<Vec<String>>,
    stores: &Vec<usize>,
    max_per_store: usize,
    now: i64,
) -> (groups: Vec<CardGroup>)
    requires
        forall|i: int| 0 <= i < stores@.len() ==> (#[trigger] stores@[i]) < keys@.len(),
    ensures
        views(groups@) == grouped(
            cached_tags(cache@, store_pairs(texts(cards@), keys@, stores@), now),
            max_per_store,
        ),
{
    let pairs = all_cache_pairs(cards, keys, stores);
    serve_pairs(cache, &pairs, max_per_store, now).0
}

/// What the cache has for a request, if it answers for every card at every store.
pub fn try_serve_from_cache(
    cache: &Cache,
    cards: &Vec<String>,
    keys: &Vec<Vec<String>>,
    stores: &Vec<usize>,
    max_per_store: usize,
    now: i64,
) -> (groups: Option<Vec<CardGroup>>)
    requires
        forall|i: int| 0 <= i < stores@.len() ==> (#[trigger] stores@[i]) < keys@.len(),
    ensures
        ({
            let pairs = store_pairs(texts(cards@), keys@, stores@);
            match groups {
                Some(g) => all_cached(cache@, pairs, now) && views(g@) == grouped(
                    cached_tags(cache@, pairs, now),
                    max_per_store,
                ),
                None => !all_cached(cache@, pairs, now),
            }
        }),
{
    let pairs = all_cache_pairs(cards, keys, stores);
    let (groups, complete) = serve_pairs(cache, &pairs, max_per_store, now);
    if complete {
        Some(groups)
    } else {
        None
    }
}

pub struct WizardCardAssignment {
    pub card: String,
    pub store: Option<String>,
    pub price: Option<u32>,
    pub url: Option<String>,
    pub category: Option<&'static str>,
}

/// A `WizardCardAssignment` as plain values.
pub struct ApiAssignment {
    pub card: Seq<char>,
    pub store: Option<Seq<char>>,
    pub price: Option<u32>,
    pub url: Option<Seq<char>>,
    pub category: Option<Seq<char>>,
}

impl View for WizardCardAssignment {
    type V = ApiAssignment;

    open spec fn view(&self) -> ApiAssignment {
        ApiAssignment {
            card: self.card@,
            store: opt_text(self.store),
            price: self.price,
            url: opt_text(self.url),
            category: opt_label(self.category),
        }
    }
}

pub struct WizardStoreSummary {
    pub name: String,
    pub card_total: u64,
    pub shipping: u32,
    pub category: Option<&'static str>,
}

/// A `WizardStoreSummary` as plain values.
pub struct ApiStore {
    pub name: Seq<char>,
    pub card_total: u64,
    pub shipping: u32,
    pub category: Option<Seq<char>>,
}

impl View for WizardStoreSummary {
    type V = ApiStore;

    open spec fn view(&self) -> ApiStore {
        ApiStore {
            name: self.name@,
            card_total: self.card_total,
            shipping: self.shipping,
            category: opt_label(self.category),
        }
    }
}

pub struct WizardResponseData {
    pub assignments: Vec<WizardCardAssignment>,
    pub skipped: Vec<String>,
    pub stores: Vec<WizardStoreSummary>,
    pub total_card_cost: u64,
    pub total_shipping: u64,
    pub num_stores: usize,
}

/// A card's line as the API returns it; a skipped card has only its name.
pub open spec fn assignment_of(line: CardLine) -> ApiAssignment {
    match line.1 {
        Some((store, price, url)) => ApiAssignment {
            card: line.0,
            store: Some(api_store(store).0),
            price: Some(price),
            url: Some(url),
            category: api_store(store).1,
        },
        None => ApiAssignment { card: line.0, store: None, price: None, url: None, category: None },
    }
}

/// The store at position `i` of a solution as the API returns it.
pub open spec fn store_of(sol: &WizardSolution, i: int) -> ApiStore {
    ApiStore {
        name: api_store(sol.store_names@[i]@).0,
        card_total: sol.card_subtotals@[i],
        shipping: sol.shipping_costs@[i],
        category: api_store(sol.store_names@[i]@).1,
    }
}

impl WizardResponseData {
    /// This is the solution as the API returns it.
    pub open spec fn stands_for(&self, sol: &WizardSolution) -> bool {
        &&& views(self.assignments@) == lines(sol.assignments@).map_values(
            |line: CardLine| assignment_of(line),
        )
        &&& texts(self.skipped@) == texts(sol.skipped@)
        &&& self.stores@.len() == sol.store_names@.len()
        &&& forall|i: int|
            0 <= i < self.stores@.len() ==> (#[trigger] self.stores@[i])@ == store_of(sol, i)
        &&& self.total_card_cost == sol.total_card_cost
        &&& self.total_shipping == sol.total_shipping
        &&& self.num_stores == sol.num_stores
    }

    fn assignment(a: &CardAssignment) -> (entry: WizardCardAssignment)
        ensures
            entry@ == assignment_of(line_view(*a)),
    {
        match &a.1 {
            Some((name, price, url)) => {
                let (store, category) = split_cm_store(name);
                WizardCardAssignment {
                    card: a.0.clone(),
                    store: Some(store),
                    price: Some(*price),
                    url: Some(url.clone()),
                    category,
                }
            },
            None => WizardCardAssignment {
                card: a.0.clone(),
                store: None,
                price: None,
                url: None,
                category: None,
            },
        }
    }

    /// A solution as the API returns it.
    pub fn from_solution(sol: &WizardSolution) -> (data: Self)
        requires
            sol.card_subtotals@.len() == sol.store_names@.len(),
            sol.shipping_costs@.len() == sol.store_names@.len(),
        ensures
            data.stands_for(sol),
    {
        let ghost f = |line: CardLine| assignment_of(line);
        let ghost all = lines(sol.assignments@);
        let mut assignments: Vec<WizardCardAssignment> = Vec::new();
        let mut i: usize = 0;
        assert(views(assignments@) =~= all.take(0).map_values(f));
        while i < sol.assignments.len()
            invariant
                f == (|line: CardLine| assignment_of(line)),
                all == lines(sol.assignments@),
                i <= sol.assignments@.len(),
                views(assignments@) == all.take(i as int).map_values(f),
            decreases sol.assignments@.len() - i,
        {
            let entry = Self::assignment(&sol.assignments[i]);
            proof {
                lemma_views_push(assignments@, entry);
                assert(all[i as int] == line_view(sol.assignments@[i as int]));
                assert(all.take(i + 1).map_values(f) =~= all.take(i as int).map_values(f).push(
                    f(all[i as int]),
                ));
            }
            assignments.push(entry);
            i += 1;
        }
        assert(all.take(i as int) =~= all);
        let mut stores: Vec<WizardStoreSummary> = Vec::new();
        let mut k: usize = 0;
        while k < sol.store_names.len()
            invariant
                sol.card_subtotals@.len() == sol.store_names@.len(),
                sol.shipping_costs@.len() == sol.store_names@.len(),
                k <= sol.store_names@.len(),
                stores@.len() == k,
                forall|j: int| 0 <= j < k ==> (#[trigger] stores@[j])@ == store_of(sol, j),
            decreases sol.store_names@.len() - k,
        {
            let (name, category) = split_cm_store(&sol.store_names[k]);
            stores.push(
                WizardStoreSummary {
                    name,
                    card_total: sol.card_subtotals[k],
                    shipping: sol.shipping_costs[k],
                    category,
                },
            );
            k += 1;
        }
        WizardResponseData {
            assignments,
            skipped: copy_texts(&sol.skipped),
            stores,
            total_card_cost: sol.total_card_cost,
            total_shipping: sol.total_shipping,
            num_stores: sol.num_stores,
        }
    }

    /// Solutions as the API returns them.
    pub fn from_solutions(solutions: &Vec<WizardSolution>) -> (data: Vec<Self>)
        requires
            forall|i: int|
                0 <= i < solutions@.len() ==> (#[trigger] solutions@[i]).card_subtotals@.len()
                    == solutions@[i].store_names@.len() && solutions@[i].shipping_costs@.len()
                    == solutions@[i].store_names@.len(),
        ensures
            data@.len() == solutions@.len(),
            forall|i: int|
                0 <= i < data@.len() ==> (#[trigger] data@[i]).stands_for(&solutions@[i]),
    {
        let mut data: Vec<Self> = Vec::new();
        let mut i: usize = 0;
        while i < solutions.len()
            invariant
                forall|k: int|
                    0 <= k < solutions@.len() ==> (#[trigger] solutions@[k]).card_subtotals@.len()
                        == solutions@[k].store_names@.len() && solutions@[k].shipping_costs@.len()
                        == solutions@[k].store_names@.len(),
                i <= solutions@.len(),
                data@.len() == i,
                forall|k: int| 0 <= k < i ==> (#[trigger] data@[k]).stands_for(&solutions@[k]),
            decreases solutions@.len() - i,
        {
            data.push(Self::from_solution(&solutions[i]));
            i += 1;
        }
        data
    }
}

} // verus!
