//! Building the wizard's input from search results.

use crate::order::{
    ascending, by_rank, law_stable_sorted, lemma_sorted_map, sort_by_rank, stable_sorted, Ranked,
};
use crate::shipping::{
    blacklisted, extract_seller_name, is_blacklisted, rounded, seller_of, shipping_for, strip_vat,
    terms, ShippingInfo, CUSTOMS_FEE,
};
use crate::stores::{listings, Listing, StoreResult};
use crate::sums::{lemma_total_take, total};
use crate::text::{begins, starts_with, texts};
use crate::wizard::model::{cell_of, CardOption, WizardCard, WizardInput, MAX_SHIPPING, MAX_TOTAL};
use crate::wizard::scored::take_list;
use vstd::prelude::*;

verus! {

/// A `CardOption` as plain text and numbers.
pub struct Offer {
    pub store: usize,
    pub price: u32,
    pub url: Seq<char>,
}

impl View for CardOption {
    type V = Offer;

    open spec fn view(&self) -> Offer {
        Offer { store: self.store_idx, price: self.price, url: self.url@ }
    }
}

/// A `WizardCard` as plain text and numbers.
pub struct Wanted {
    pub name: Seq<char>,
    pub offers: Seq<Offer>,
}

pub open spec fn offers(v: Seq<CardOption>) -> Seq<Offer> {
    v.map_values(|o: CardOption| o@)
}

impl View for WizardCard {
    type V = Wanted;

    open spec fn view(&self) -> Wanted {
        Wanted { name: self.name@, offers: offers(self.options@) }
    }
}

pub open spec fn wanted_views(v: Seq<WizardCard>) -> Seq<Wanted> {
    v.map_values(|c: WizardCard| c@)
}

impl Ranked for CardOption {
    open spec fn rank(&self) -> int {
        self.price as int
    }

    fn get_rank(&self) -> (r: u64) {
        self.price as u64
    }
}

pub open spec fn by_price() -> spec_fn(Offer) -> int {
    |o: Offer| o.price as int
}

/// The seller ships to the destination: blacklisted sellers ship only within the EU.
pub open spec fn ships(row: Listing, eu: bool) -> bool {
    eu || !blacklisted(seller_of(row.store))
}

/// The store names in the order of their first listing.
pub open spec fn store_list(rows: Seq<Listing>, eu: bool) -> Seq<Seq<char>>
    decreases rows.len(),
{
    if rows.len() == 0 {
        Seq::empty()
    } else {
        let rest = store_list(rows.drop_last(), eu);
        if ships(rows.last(), eu) && !rest.contains(rows.last().store) {
            rest.push(rows.last().store)
        } else {
            rest
        }
    }
}

/// The store is an international CardMarket seller.
pub open spec fn international(store: Seq<char>) -> bool {
    starts_with(store, "cardmarket-int.com:"@) || starts_with(store, "cardmarket-int-private.com:"@)
}

/// The price without VAT.
pub open spec fn without_vat(price: int) -> int {
    rounded(price * 100, 125)
}

/// What the card costs at the destination: within the EU, international prices
/// come without the Norwegian VAT.
pub open spec fn local_price(row: Listing, eu: bool) -> u32 {
    if eu && international(row.store) {
        without_vat(row.price as int) as u32
    } else {
        row.price
    }
}

/// The offers of one card, in listing order.  Listings without a price are left out.
pub open spec fn offers_of(rows: Seq<Listing>, stores: Seq<Seq<char>>, eu: bool, card: Seq<char>) -> Seq<
    Offer,
>
    decreases rows.len(),
{
    if rows.len() == 0 {
        Seq::empty()
    } else {
        let rest = offers_of(rows.drop_last(), stores, eu, card);
        let row = rows.last();
        if ships(row, eu) && row.price != 0 && row.card == card {
            rest.push(
                Offer {
                    store: stores.index_of(row.store) as usize,
                    price: local_price(row, eu),
                    url: row.url,
                },
            )
        } else {
            rest
        }
    }
}

/// The offers of one card, cheapest first.
pub open spec fn sorted_offers(rows: Seq<Listing>, eu: bool, card: Seq<char>) -> Seq<Offer> {
    stable_sorted(offers_of(rows, store_list(rows, eu), eu, card), by_price())
}

/// The cards that are on offer without being wanted, in the order of their first offer.
pub open spec fn extra_cards(rows: Seq<Listing>, wanted: Seq<Seq<char>>, eu: bool) -> Seq<Seq<char>>
    decreases rows.len(),
{
    if rows.len() == 0 {
        Seq::empty()
    } else {
        let rest = extra_cards(rows.drop_last(), wanted, eu);
        let row = rows.last();
        if ships(row, eu) && row.price != 0 && !wanted.contains(row.card) && !rest.contains(
            row.card,
        ) {
            rest.push(row.card)
        } else {
            rest
        }
    }
}

/// The cards of the input: the wanted ones in order, where a name that was wanted
/// before has no offers left, and then the others on offer.
pub open spec fn card_list(rows: Seq<Listing>, wanted: Seq<Seq<char>>, eu: bool) -> Seq<Wanted> {
    Seq::new(
        wanted.len(),
        |i: int|
            Wanted {
                name: wanted[i],
                offers: if wanted.take(i).contains(wanted[i]) {
                    Seq::empty()
                } else {
                    sorted_offers(rows, eu, wanted[i])
                },
            },
    ) + extra_cards(rows, wanted, eu).map_values(
        |n: Seq<char>| Wanted { name: n, offers: sorted_offers(rows, eu, n) },
    )
}

/// The shipping terms at the destination: within the EU, international shipping
/// comes without VAT and without customs.
pub open spec fn local_terms(store: Seq<char>, eu: bool) -> ShippingInfo {
    let t = terms(store);
    if eu && starts_with(store, "cardmarket-int-private.com:"@) {
        let net = if t.base > CUSTOMS_FEE {
            t.base - CUSTOMS_FEE
        } else {
            0
        };
        ShippingInfo { base: without_vat(net) as u32, ..t }
    } else if eu && starts_with(store, "cardmarket-int.com:"@) {
        ShippingInfo { base: without_vat(t.base as int) as u32, ..t }
    } else {
        t
    }
}

/// The dearest offer of each card.
pub open spec fn dearest(cards: Seq<Wanted>) -> Seq<int> {
    Seq::new(
        cards.len(),
        |ci: int|
            if cards[ci].offers.len() == 0 {
                0
            } else {
                cards[ci].offers.last().price as int
            },
    )
}

/// The input is small enough for its amounts and counts: no total of prices goes
/// beyond the largest sum, and the price matrix fits memory.
pub open spec fn fits(rows: Seq<Listing>, wanted: Seq<Seq<char>>, eu: bool) -> bool {
    let cards = card_list(rows, wanted, eu);
    &&& wanted.len() + rows.len() <= u32::MAX
    &&& cards.len() * store_list(rows, eu).len() <= usize::MAX
    &&& total(dearest(cards)) <= MAX_TOTAL
}

proof fn lemma_store_list(rows: Seq<Listing>, eu: bool)
    ensures
        store_list(rows, eu).len() <= rows.len(),
        store_list(rows, eu).no_duplicates(),
    decreases rows.len(),
{
    if rows.len() > 0 {
        lemma_store_list(rows.drop_last(), eu);
    }
}

/// Later listings only add stores at the end.
proof fn lemma_store_list_grows(rows: Seq<Listing>, eu: bool, k: int)
    requires
        0 <= k <= rows.len(),
    ensures
        store_list(rows.take(k), eu).len() <= store_list(rows, eu).len(),
        forall|i: int|
            0 <= i < store_list(rows.take(k), eu).len() ==> #[trigger] store_list(rows, eu)[i]
                == store_list(rows.take(k), eu)[i],
    decreases rows.len() - k,
{
    if k < rows.len() {
        let t = rows.take(k + 1);
        assert(t.drop_last() =~= rows.take(k));
        lemma_store_list_grows(rows, eu, k + 1);
        let all = store_list(rows, eu);
        let small = store_list(rows.take(k), eu);
        let mid = store_list(t, eu);
        assert forall|i: int| 0 <= i < small.len() implies #[trigger] all[i] == small[i] by {
            assert(mid[i] == small[i]);
            assert(all[i] == mid[i]);
        }
    } else {
        assert(rows.take(k) =~= rows);
    }
}

/// Where the name stands in the list, if anywhere.
fn index_in(names: &Vec<String>, name: &String) -> (at: Option<usize>)
    ensures
        match at {
            Some(i) => i < names@.len() && names@[i as int]@ == name@,
            None => !texts(names@).contains(name@),
        },
{
    let mut i: usize = 0;
    while i < names.len()
        invariant
            i <= names@.len(),
            forall|k: int| 0 <= k < i ==> (#[trigger] names@[k])@ != name@,
        decreases names@.len() - i,
    {
        if names[i] == *name {
            return Some(i);
        }
        i += 1;
    }
    proof {
        if texts(names@).contains(name@) {
            let k = choose|k: int| 0 <= k < texts(names@).len() && texts(names@)[k] == name@;
            assert(names@[k]@ != name@);
        }
    }
    None
}

/// Which listings ship to the destination.
fn find_shipping(results: &Vec<StoreResult>, eu: bool) -> (flags: Vec<bool>)
    ensures
        flags@.len() == results@.len(),
        forall|i: int| 0 <= i < flags@.len() ==> #[trigger] flags@[i] == ships(results@[i]@, eu),
{
    let mut flags: Vec<bool> = Vec::new();
    let mut i: usize = 0;
    while i < results.len()
        invariant
            i <= results@.len(),
            flags@.len() == i,
            forall|k: int|
                0 <= k < i ==> #[trigger] flags@[k] == ships(results@[k]@, eu),
        decreases results@.len() - i,
    {
        let ok: bool = eu || !is_blacklisted(&extract_seller_name(&results[i].store_name));
        flags.push(ok);
        i += 1;
    }
    flags
}

/// The stores of the listings, and which store each shipping listing belongs to.
fn find_stores(
    results: &Vec<StoreResult>,
    flags: &Vec<bool>,
    Ghost(eu): Ghost<bool>,
) -> (found: (Vec<String>, Vec<usize>))
    requires
        flags@.len() == results@.len(),
        forall|i: int| 0 <= i < flags@.len() ==> #[trigger] flags@[i] == ships(results@[i]@, eu),
    ensures
        texts(found.0@) == store_list(listings(results@), eu),
        found.1@.len() == results@.len(),
        forall|i: int|
            0 <= i < results@.len() && ships(results@[i]@, eu) ==> (#[trigger] found.1@[i])
                < found.0@.len() && found.0@[found.1@[i] as int]@ == results@[i].store_name@,
{
    let ghost rows = listings(results@);
    let mut names: Vec<String> = Vec::new();
    let mut at: Vec<usize> = Vec::new();
    let mut i: usize = 0;
    assert(rows.take(0) =~= Seq::empty());
    assert(texts(names@) =~= Seq::empty());
    while i < results.len()
        invariant
            flags@.len() == results@.len(),
            forall|k: int|
                0 <= k < flags@.len() ==> #[trigger] flags@[k] == ships(results@[k]@, eu),
            rows == listings(results@),
            i <= results@.len(),
            texts(names@) == store_list(rows.take(i as int), eu),
            at@.len() == i,
            forall|k: int|
                0 <= k < i && ships(results@[k]@, eu) ==> (#[trigger] at@[k]) < names@.len()
                    && names@[at@[k] as int]@ == results@[k].store_name@,
        decreases results@.len() - i,
    {
        let ghost before = names@;
        proof {
            let t = rows.take(i + 1);
            assert(t.drop_last() =~= rows.take(i as int));
            assert(t.last() == results@[i as int]@);
            assert(flags@[i as int] == ships(results@[i as int]@, eu));
        }
        if flags[i] {
            match index_in(&names, &results[i].store_name) {
                Some(k) => {
                    assert(texts(names@)[k as int] == results@[i as int].store_name@);
                    at.push(k);
                },
                None => {
                    at.push(names.len());
                    names.push(results[i].store_name.clone());
                    assert(texts(names@) =~= texts(before).push(results@[i as int].store_name@));
                },
            }
        } else {
            at.push(0);
        }
        i += 1;
    }
    assert(rows.take(i as int) =~= rows);
    (names, at)
}

/// The sorted offers of one card.
fn find_offers(
    results: &Vec<StoreResult>,
    flags: &Vec<bool>,
    names: &Vec<String>,
    at: &Vec<usize>,
    eu: bool,
    card: &String,
) -> (options: Vec<CardOption>)
    requires
        flags@.len() == results@.len(),
        at@.len() == results@.len(),
        forall|i: int| 0 <= i < flags@.len() ==> #[trigger] flags@[i] == ships(results@[i]@, eu),
        texts(names@) == store_list(listings(results@), eu),
        forall|i: int|
            0 <= i < results@.len() && ships(results@[i]@, eu) ==> (#[trigger] at@[i]) < names@.len()
                && names@[at@[i] as int]@ == results@[i].store_name@,
    ensures
        offers(options@) == sorted_offers(listings(results@), eu, card@),
        options@.len() <= results@.len(),
        forall|k: int|
            0 <= k < options@.len() ==> (#[trigger] options@[k]).store_idx < names@.len()
                && options@[k].price > 0,
        ascending(options@, by_rank::<CardOption>()),
{
    let ghost rows = listings(results@);
    let ghost stores = texts(names@);
    let mut found: Vec<CardOption> = Vec::new();
    let mut i: usize = 0;
    proof {
        lemma_store_list(rows, eu);
        assert(rows.take(0) =~= Seq::empty());
        assert(offers(found@) =~= Seq::empty());
    }
    while i < results.len()
        invariant
            flags@.len() == results@.len(),
            at@.len() == results@.len(),
            forall|k: int|
                0 <= k < flags@.len() ==> #[trigger] flags@[k] == ships(results@[k]@, eu),
            stores == texts(names@),
            stores.no_duplicates(),
            forall|k: int|
                0 <= k < results@.len() && ships(results@[k]@, eu) ==> (#[trigger] at@[k])
                    < names@.len() && names@[at@[k] as int]@ == results@[k].store_name@,
            rows == listings(results@),
            i <= results@.len(),
            found@.len() <= i,
            offers(found@) == offers_of(rows.take(i as int), stores, eu, card@),
            forall|k: int|
                0 <= k < found@.len() ==> (#[trigger] found@[k]).store_idx < names@.len()
                    && found@[k].price > 0,
        decreases results@.len() - i,
    {
        let ghost before = found@;
        let r = &results[i];
        proof {
            let t = rows.take(i + 1);
            assert(t.drop_last() =~= rows.take(i as int));
            assert(t.last() == r@);
            assert(flags@[i as int] == ships(results@[i as int]@, eu));
            if ships(r@, eu) {
                assert(at@[i as int] < names@.len());
                assert(stores[at@[i as int] as int] == r.store_name@);
                assert(stores.contains(r.store_name@));
                assert(stores.index_of(r.store_name@) == at@[i as int]);
            }
        }
        if flags[i] && r.price != 0 && r.card_name == *card {
            let abroad: bool = begins(&r.store_name, "cardmarket-int.com:") || begins(
                &r.store_name,
                "cardmarket-int-private.com:",
            );
            let price: u32 = if eu && abroad {
                strip_vat(r.price)
            } else {
                r.price
            };
            let option = CardOption { store_idx: at[i], price, url: r.url.clone() };
            assert(price > 0);
            found.push(option);
            assert(offers(found@) =~= offers(before).push(option@));
        }
        i += 1;
    }
    assert(rows.take(i as int) =~= rows);
    let ghost given = found@;
    let options = sort_by_rank(found);
    proof {
        let f = |o: CardOption| o@;
        lemma_sorted_map(given, by_rank::<CardOption>(), f, by_price());
        law_stable_sorted(given, by_rank::<CardOption>());
        assert forall|k: int| 0 <= k < options@.len() implies (#[trigger] options@[k]).store_idx
            < names@.len() && options@[k].price > 0 by {
            assert(options@.contains(options@[k]));
            assert(given.contains(options@[k]));
            let j = choose|j: int| 0 <= j < given.len() && given[j] == options@[k];
            assert(given[j].store_idx < names@.len());
        }
    }
    options
}

/// The listings of a card name known stores, carry a price, and are sorted by it.
spec fn options_ok(opts: Seq<CardOption>, stores: nat) -> bool {
    &&& opts.len() <= u32::MAX
    &&& forall|k: int|
        0 <= k < opts.len() ==> (#[trigger] opts[k]).store_idx < stores && opts[k].price > 0
    &&& ascending(opts, by_rank::<CardOption>())
}

/// The cards of the input.
fn find_cards(
    results: &Vec<StoreResult>,
    flags: &Vec<bool>,
    names: &Vec<String>,
    at: &Vec<usize>,
    wanted: &Vec<String>,
    eu: bool,
) -> (cards: Vec<WizardCard>)
    requires
        wanted@.len() + results@.len() <= u32::MAX,
        flags@.len() == results@.len(),
        at@.len() == results@.len(),
        forall|i: int| 0 <= i < flags@.len() ==> #[trigger] flags@[i] == ships(results@[i]@, eu),
        texts(names@) == store_list(listings(results@), eu),
        forall|i: int|
            0 <= i < results@.len() && ships(results@[i]@, eu) ==> (#[trigger] at@[i]) < names@.len()
                && names@[at@[i] as int]@ == results@[i].store_name@,
    ensures
        wanted_views(cards@) == card_list(listings(results@), texts(wanted@), eu),
        cards@.len() <= wanted@.len() + results@.len(),
        forall|ci: int|
            0 <= ci < cards@.len() ==> options_ok((#[trigger] cards@[ci]).options@, names@.len()),
{
    let ghost rows = listings(results@);
    let ghost want = texts(wanted@);
    let ghost all = card_list(rows, want, eu);
    let mut cards: Vec<WizardCard> = Vec::new();
    let mut i: usize = 0;
    assert(wanted_views(cards@) =~= all.take(0));
    while i < wanted.len()
        invariant
            wanted@.len() + results@.len() <= u32::MAX,
            flags@.len() == results@.len(),
            at@.len() == results@.len(),
            forall|k: int|
                0 <= k < flags@.len() ==> #[trigger] flags@[k] == ships(results@[k]@, eu),
            texts(names@) == store_list(listings(results@), eu),
            forall|k: int|
                0 <= k < results@.len() && ships(results@[k]@, eu) ==> (#[trigger] at@[k])
                    < names@.len() && names@[at@[k] as int]@ == results@[k].store_name@,
            rows == listings(results@),
            want == texts(wanted@),
            all == card_list(rows, want, eu),
            i <= wanted@.len(),
            cards@.len() == i,
            wanted_views(cards@) == all.take(i as int),
            forall|ci: int|
                0 <= ci < cards@.len() ==> options_ok(
                    (#[trigger] cards@[ci]).options@,
                    names@.len(),
                ),
        decreases wanted@.len() - i,
    {
        let ghost before = cards@;
        let mut seen: bool = false;
        let mut k: usize = 0;
        while k < i
            invariant
                k <= i < wanted@.len(),
                want == texts(wanted@),
                seen == exists|j: int| 0 <= j < k && #[trigger] want[j] == want[i as int],
            decreases i - k,
        {
            if wanted[k] == wanted[i] {
                assert(want[k as int] == want[i as int]);
                seen = true;
            }
            k += 1;
        }
        proof {
            let t = want.take(i as int);
            if seen {
                let j = choose|j: int| 0 <= j < i && #[trigger] want[j] == want[i as int];
                assert(t[j] == want[i as int]);
                assert(t.contains(want[i as int]));
            } else if t.contains(want[i as int]) {
                let j = choose|j: int| 0 <= j < t.len() && t[j] == want[i as int];
                assert(want[j] == want[i as int]);
            }
        }
        let options: Vec<CardOption> = if seen {
            Vec::new()
        } else {
            find_offers(results, flags, names, at, eu, &wanted[i])
        };
        proof {
            assert(seen ==> offers(options@) =~= Seq::empty());
        }
        let card = WizardCard { name: wanted[i].clone(), options };
        cards.push(card);
        proof {
            assert(card@ == all[i as int]);
            assert(wanted_views(cards@) =~= wanted_views(before).push(card@));
            assert(all.take(i + 1) =~= all.take(i as int).push(all[i as int]));
        }
        i += 1;
    }
    let mut extra: Vec<String> = Vec::new();
    let mut r: usize = 0;
    let ghost n = wanted@.len() as int;
    proof {
        assert(rows.take(0) =~= Seq::empty());
        assert(texts(extra@) =~= Seq::empty());
    }
    while r < results.len()
        invariant
            flags@.len() == results@.len(),
            forall|k: int|
                0 <= k < flags@.len() ==> #[trigger] flags@[k] == ships(results@[k]@, eu),
            rows == listings(results@),
            want == texts(wanted@),
            r <= results@.len(),
            extra@.len() <= r,
            texts(extra@) == extra_cards(rows.take(r as int), want, eu),
        decreases results@.len() - r,
    {
        let ghost before = extra@;
        proof {
            let t = rows.take(r + 1);
            assert(t.drop_last() =~= rows.take(r as int));
            assert(t.last() == results@[r as int]@);
            assert(flags@[r as int] == ships(results@[r as int]@, eu));
        }
        if flags[r] && results[r].price != 0 {
            let in_wanted = index_in(wanted, &results[r].card_name);
            let in_extra = index_in(&extra, &results[r].card_name);
            proof {
                if let Some(k) = in_wanted {
                    assert(want[k as int] == results@[r as int].card_name@);
                }
                if let Some(k) = in_extra {
                    assert(texts(extra@)[k as int] == results@[r as int].card_name@);
                }
            }
            if in_wanted.is_none() && in_extra.is_none() {
                extra.push(results[r].card_name.clone());
                assert(texts(extra@) =~= texts(before).push(results@[r as int].card_name@));
            }
        }
        r += 1;
    }
    assert(rows.take(r as int) =~= rows);
    let mut k: usize = 0;
    while k < extra.len()
        invariant
            wanted@.len() + results@.len() <= u32::MAX,
            flags@.len() == results@.len(),
            at@.len() == results@.len(),
            forall|k: int|
                0 <= k < flags@.len() ==> #[trigger] flags@[k] == ships(results@[k]@, eu),
            texts(names@) == store_list(listings(results@), eu),
            forall|k: int|
                0 <= k < results@.len() && ships(results@[k]@, eu) ==> (#[trigger] at@[k])
                    < names@.len() && names@[at@[k] as int]@ == results@[k].store_name@,
            rows == listings(results@),
            want == texts(wanted@),
            all == card_list(rows, want, eu),
            texts(extra@) == extra_cards(rows, want, eu),
            k <= extra@.len(),
            n == wanted@.len(),
            cards@.len() == n + k,
            wanted_views(cards@) == all.take(n + k),
            forall|ci: int|
                0 <= ci < cards@.len() ==> options_ok(
                    (#[trigger] cards@[ci]).options@,
                    names@.len(),
                ),
        decreases extra@.len() - k,
    {
        let ghost before = cards@;
        let options = find_offers(results, flags, names, at, eu, &extra[k]);
        let card = WizardCard { name: extra[k].clone(), options };
        cards.push(card);
        proof {
            assert(texts(extra@)[k as int] == extra@[k as int]@);
            assert(all[n + k] == Wanted {
                name: extra@[k as int]@,
                offers: sorted_offers(rows, eu, extra@[k as int]@),
            });
            assert(card@ == all[n + k]);
            assert(wanted_views(cards@) =~= wanted_views(before).push(card@));
            assert(all.take(n + k + 1) =~= all.take(n + k).push(all[n + k]));
        }
        k += 1;
    }
    assert(all.take(n + k) =~= all);
    cards
}

/// The shipping terms of a store at the destination.
fn find_terms(store: &str, eu: bool) -> (info: ShippingInfo)
    ensures
        info == local_terms(store@, eu),
        info.base + info.card_surcharge <= MAX_SHIPPING,
{
    let info = shipping_for(store);
    if eu && begins(store, "cardmarket-int-private.com:") {
        let net: u32 = if info.base as u64 > CUSTOMS_FEE {
            info.base - CUSTOMS_FEE as u32
        } else {
            0
        };
        ShippingInfo {
            base: strip_vat(net),
            free_threshold: info.free_threshold,
            min_order: info.min_order,
            card_limit: info.card_limit,
            card_surcharge: info.card_surcharge,
        }
    } else if eu && begins(store, "cardmarket-int.com:") {
        ShippingInfo {
            base: strip_vat(info.base),
            free_threshold: info.free_threshold,
            min_order: info.min_order,
            card_limit: info.card_limit,
            card_surcharge: info.card_surcharge,
        }
    } else {
        info
    }
}

/// One row of the price matrices: the cheapest price and option of a card per store.
fn price_row(options: &Vec<CardOption>, stores: usize) -> (row: (Vec<u32>, Vec<u32>))
    requires
        options_ok(options@, stores as nat),
    ensures
        row.0@.len() == stores,
        row.1@.len() == stores,
        forall|si: int|
            0 <= si < stores ==> #[trigger] cell_of(options@, si, row.0@[si], row.1@[si]),
{
    let mut prices: Vec<u32> = vec![u32::MAX; stores];
    let mut indices: Vec<u32> = vec![0; stores];
    let mut oi: usize = 0;
    assert(options@.take(0) =~= Seq::empty());
    while oi < options.len()
        invariant
            options_ok(options@, stores as nat),
            oi <= options@.len(),
            prices@.len() == stores,
            indices@.len() == stores,
            forall|si: int|
                0 <= si < stores ==> #[trigger] cell_of(
                    options@.take(oi as int),
                    si,
                    prices@[si],
                    indices@[si],
                ),
        decreases options@.len() - oi,
    {
        let si: usize = options[oi].store_idx;
        let ghost p0 = prices@;
        let ghost i0 = indices@;
        proof {
            assert(options@[oi as int].store_idx < stores);
            assert(cell_of(options@.take(oi as int), si as int, p0[si as int], i0[si as int]));
        }
        if options[oi].price < prices[si] {
            proof {
                if p0[si as int] != u32::MAX {
                    let k = i0[si as int] as int;
                    assert(options@.take(oi as int)[k] == options@[k]);
                    assert(by_rank::<CardOption>()(options@[k]) <= by_rank::<CardOption>()(
                        options@[oi as int],
                    ));
                }
            }
            prices[si] = options[oi].price;
            indices[si] = oi as u32;
        }
        proof {
            let t0 = options@.take(oi as int);
            let t1 = options@.take(oi + 1);
            assert forall|s: int| 0 <= s < stores implies #[trigger] cell_of(
                t1,
                s,
                prices@[s],
                indices@[s],
            ) by {
                assert(cell_of(t0, s, p0[s], i0[s]));
                if s != si {
                    if p0[s] == u32::MAX {
                        assert forall|k: int|
                            0 <= k < t1.len() && (#[trigger] t1[k]).store_idx == s implies
                            t1[k].price == u32::MAX by {
                            assert(t0[k] == t1[k]);
                        }
                    } else {
                        let b = i0[s] as int;
                        assert(t0[b] == t1[b]);
                        assert forall|k: int| 0 <= k < b implies (#[trigger] t1[k]).store_idx
                            != s by {
                            assert(t0[k] == t1[k]);
                        }
                    }
                } else if p0[s] == u32::MAX {
                    if options@[oi as int].price < u32::MAX {
                        assert(t1[oi as int] == options@[oi as int]);
                        assert forall|k: int| 0 <= k < oi implies (#[trigger] t1[k]).store_idx
                            != s by {
                            assert(t0[k] == t1[k]);
                            assert(by_rank::<CardOption>()(options@[k]) <= by_rank::<CardOption>()(
                                options@[oi as int],
                            ));
                        }
                    } else {
                        assert forall|k: int|
                            0 <= k < t1.len() && (#[trigger] t1[k]).store_idx == s implies
                            t1[k].price == u32::MAX by {
                            if k < oi {
                                assert(t0[k] == t1[k]);
                            }
                        }
                    }
                } else {
                    let b = i0[s] as int;
                    assert(t0[b] == t1[b]);
                    assert forall|k: int| 0 <= k < b implies (#[trigger] t1[k]).store_idx != s by {
                        assert(t0[k] == t1[k]);
                    }
                }
            }
        }
        oi += 1;
    }
    assert(options@.take(oi as int) =~= options@);
    (prices, indices)
}

/// The price matrices, row after row.
fn price_matrix(cards: &Vec<WizardCard>, stores: usize) -> (matrix: (Vec<u32>, Vec<u32>))
    requires
        cards@.len() * stores <= usize::MAX,
        forall|ci: int|
            0 <= ci < cards@.len() ==> options_ok((#[trigger] cards@[ci]).options@, stores as nat),
    ensures
        matrix.0@.len() == cards@.len() * stores,
        matrix.1@.len() == cards@.len() * stores,
        forall|ci: int, si: int|
            0 <= ci < cards@.len() && 0 <= si < stores ==> cell_of(
                (#[trigger] cards@[ci]).options@,
                si,
                #[trigger] matrix.0@[ci * stores + si],
                matrix.1@[ci * stores + si],
            ),
{
    let mut prices: Vec<u32> = Vec::new();
    let mut indices: Vec<u32> = Vec::new();
    let mut ci: usize = 0;
    while ci < cards.len()
        invariant
            forall|k: int|
                0 <= k < cards@.len() ==> options_ok(
                    (#[trigger] cards@[k]).options@,
                    stores as nat,
                ),
            ci <= cards@.len(),
            prices@.len() == ci * stores,
            indices@.len() == ci * stores,
            forall|k: int, si: int|
                0 <= k < ci && 0 <= si < stores ==> cell_of(
                    (#[trigger] cards@[k]).options@,
                    si,
                    #[trigger] prices@[k * stores + si],
                    indices@[k * stores + si],
                ),
        decreases cards@.len() - ci,
    {
        assert(options_ok(cards@[ci as int].options@, stores as nat));
        let (mut p, mut i) = price_row(&cards[ci].options, stores);
        let ghost p0 = prices@;
        let ghost i0 = indices@;
        let ghost p1 = p@;
        let ghost i1 = i@;
        prices.append(&mut p);
        indices.append(&mut i);
        proof {
            assert((ci + 1) * stores == ci * stores + stores) by (nonlinear_arith);
            assert forall|k: int, si: int| 0 <= k < ci + 1 && 0 <= si < stores implies cell_of(
                (#[trigger] cards@[k]).options@,
                si,
                #[trigger] prices@[k * stores + si],
                indices@[k * stores + si],
            ) by {
                if k < ci {
                    assert(0 <= k * stores + si < ci * stores) by (nonlinear_arith)
                        requires
                            0 <= k < ci,
                            0 <= si < stores,
                    ;
                    assert(prices@[k * stores + si] == p0[k * stores + si]);
                    assert(indices@[k * stores + si] == i0[k * stores + si]);
                } else {
                    assert(cell_of(cards@[ci as int].options@, si, p1[si], i1[si]));
                    assert(prices@[k * stores + si] == p1[si]);
                    assert(indices@[k * stores + si] == i1[si]);
                }
            }
        }
        ci += 1;
    }
    (prices, indices)
}

/// Some listing is at store `si`.
spec fn at_store(opts: Seq<CardOption>, si: int) -> bool {
    exists|oi: int| 0 <= oi < opts.len() && (#[trigger] opts[oi]).store_idx == si
}

/// Which stores list the card.
fn store_flags(options: &Vec<CardOption>, stores: usize) -> (flags: Vec<bool>)
    requires
        options_ok(options@, stores as nat),
    ensures
        flags@.len() == stores,
        forall|si: int| 0 <= si < stores ==> #[trigger] flags@[si] == at_store(options@, si),
{
    let mut flags: Vec<bool> = vec![false; stores];
    let mut oi: usize = 0;
    while oi < options.len()
        invariant
            options_ok(options@, stores as nat),
            oi <= options@.len(),
            flags@.len() == stores,
            forall|si: int|
                0 <= si < stores ==> #[trigger] flags@[si] == exists|k: int|
                    0 <= k < oi && (#[trigger] options@[k]).store_idx == si,
        decreases options@.len() - oi,
    {
        let ghost f0 = flags@;
        assert(options@[oi as int].store_idx < stores);
        let here: usize = options[oi].store_idx;
        flags[here] = true;
        proof {
            assert forall|si: int| 0 <= si < stores implies #[trigger] flags@[si] == exists|k: int|
                0 <= k < oi + 1 && (#[trigger] options@[k]).store_idx == si by {
                if si == here {
                    assert(options@[oi as int].store_idx == si);
                } else {
                    assert(flags@[si] == f0[si]);
                    if f0[si] {
                        let k = choose|k: int|
                            0 <= k < oi && (#[trigger] options@[k]).store_idx == si;
                        assert(options@[k].store_idx == si);
                    }
                }
            }
        }
        oi += 1;
    }
    flags
}

/// The list holds exactly the cards below `n` with a listing at the store, ascending.
spec fn cards_listed(listed: Seq<usize>, cards: Seq<WizardCard>, si: int, n: int) -> bool {
    &&& forall|a: int, b: int|
        0 <= a < b < listed.len() ==> (#[trigger] listed[a]) < (#[trigger] listed[b])
    &&& forall|a: int| 0 <= a < listed.len() ==> (#[trigger] listed[a]) < n
    &&& forall|ci: usize| #[trigger]
        listed.contains(ci) <==> ci < n && at_store(cards[ci as int].options@, si)
}

/// The cards that each store lists.
fn cards_by_store(cards: &Vec<WizardCard>, stores: usize) -> (lists: Vec<Vec<usize>>)
    requires
        forall|ci: int|
            0 <= ci < cards@.len() ==> options_ok((#[trigger] cards@[ci]).options@, stores as nat),
    ensures
        lists@.len() == stores,
        forall|si: int|
            0 <= si < stores ==> cards_listed(
                (#[trigger] lists@[si])@,
                cards@,
                si,
                cards@.len() as int,
            ),
{
    let mut lists: Vec<Vec<usize>> = Vec::new();
    let mut s: usize = 0;
    while s < stores
        invariant
            s <= stores,
            lists@.len() == s,
            forall|k: int| 0 <= k < s ==> (#[trigger] lists@[k])@.len() == 0,
        decreases stores - s,
    {
        lists.push(Vec::new());
        s += 1;
    }
    let mut ci: usize = 0;
    while ci < cards.len()
        invariant
            forall|k: int|
                0 <= k < cards@.len() ==> options_ok(
                    (#[trigger] cards@[k]).options@,
                    stores as nat,
                ),
            ci <= cards@.len(),
            lists@.len() == stores,
            forall|si: int|
                0 <= si < stores ==> cards_listed((#[trigger] lists@[si])@, cards@, si, ci as int),
        decreases cards@.len() - ci,
    {
        assert(options_ok(cards@[ci as int].options@, stores as nat));
        let flags = store_flags(&cards[ci].options, stores);
        let mut si: usize = 0;
        while si < stores
            invariant
                ci < cards@.len(),
                si <= stores,
                lists@.len() == stores,
                flags@.len() == stores,
                forall|k: int|
                    0 <= k < stores ==> #[trigger] flags@[k] == at_store(
                        cards@[ci as int].options@,
                        k,
                    ),
                forall|k: int|
                    0 <= k < si ==> cards_listed((#[trigger] lists@[k])@, cards@, k, ci + 1),
                forall|k: int|
                    si <= k < stores ==> cards_listed(
                        (#[trigger] lists@[k])@,
                        cards@,
                        k,
                        ci as int,
                    ),
            decreases stores - si,
        {
            let ghost old_list = lists@[si as int]@;
            assert(cards_listed(lists@[si as int]@, cards@, si as int, ci as int));
            assert(flags@[si as int] == at_store(cards@[ci as int].options@, si as int));
            let mut list = take_list(&mut lists, si);
            if flags[si] {
                list.push(ci);
                proof {
                    assert forall|c: usize| #[trigger] list@.contains(c) <==> c < ci + 1
                        && at_store(cards@[c as int].options@, si as int) by {
                        if list@.contains(c) {
                            let a = choose|a: int| 0 <= a < list@.len() && list@[a] == c;
                            if a < old_list.len() {
                                assert(old_list[a] == c);
                                assert(old_list.contains(c));
                            }
                        }
                        if c < ci + 1 && at_store(cards@[c as int].options@, si as int) {
                            if c < ci {
                                assert(old_list.contains(c));
                                let a = choose|a: int| 0 <= a < old_list.len() && old_list[a] == c;
                                assert(list@[a] == c);
                            } else {
                                assert(list@[old_list.len() as int] == c);
                            }
                        }
                    }
                }
            }
            proof {
                assert forall|c: usize| #[trigger] list@.contains(c) <==> c < ci + 1 && at_store(
                    cards@[c as int].options@,
                    si as int,
                ) by {
                    assert(old_list.contains(c) <==> c < ci && at_store(
                        cards@[c as int].options@,
                        si as int,
                    ));
                }
                assert(cards_listed(list@, cards@, si as int, ci + 1));
            }
            lists[si] = list;
            si += 1;
        }
        ci += 1;
    }
    lists
}

impl WizardInput {
    /// This input holds the results for the wanted cards.
    pub open spec fn built_from(
        &self,
        rows: Seq<Listing>,
        wanted: Seq<Seq<char>>,
        eu: bool,
    ) -> bool {
        let stores = store_list(rows, eu);
        &&& wanted_views(self.cards@) == card_list(rows, wanted, eu)
        &&& texts(self.store_names@) == stores
        &&& self.terms_ok()
        &&& forall|si: int|
            0 <= si < stores.len() ==> #[trigger] self.terms_at(si) == local_terms(stores[si], eu)
    }

    /// The shipping terms of store `si`.
    pub open spec fn terms_at(&self, si: int) -> ShippingInfo {
        ShippingInfo {
            base: self.shipping_bases@[si],
            free_threshold: self.shipping_free_thresholds@[si],
            min_order: self.min_orders@[si],
            card_limit: self.shipping_card_limits@[si],
            card_surcharge: self.shipping_card_surcharges@[si],
        }
    }

    /// The wizard's input for the wanted cards, or nothing where the amounts or
    /// the counts are too large for it.  Sellers on the blacklist are left out
    /// unless the destination is within the EU.
    pub fn try_from_results_and_wants(
        results: &Vec<StoreResult>,
        wanted_cards: &Vec<String>,
        eu_destination: bool,
    ) -> (built: Option<Self>)
        ensures
            built is Some <==> fits(listings(results@), texts(wanted_cards@), eu_destination),
            built matches Some(input) ==> input.wf() && input.built_from(
                listings(results@),
                texts(wanted_cards@),
                eu_destination,
            ),
    {
        let ghost rows = listings(results@);
        let ghost want = texts(wanted_cards@);
        let limit: usize = u32::MAX as usize;
        if wanted_cards.len() > limit || results.len() > limit - wanted_cards.len() {
            return None;
        }
        let flags = find_shipping(results, eu_destination);
        let (store_names, at) = find_stores(results, &flags, Ghost(eu_destination));
        let cards = find_cards(results, &flags, &store_names, &at, wanted_cards, eu_destination);
        let stores: usize = store_names.len();
        proof {
            lemma_store_list(rows, eu_destination);
            assert(wanted_views(cards@).len() == cards@.len());
            assert(texts(store_names@).len() == stores);
        }
        if stores > 0 && cards.len() > usize::MAX / stores {
            proof {
                let n = cards@.len();
                assert(n * stores > usize::MAX) by (nonlinear_arith)
                    requires
                        stores > 0,
                        n > usize::MAX / stores,
                ;
            }
            return None;
        }
        proof {
            let n = cards@.len();
            assert(n * stores <= usize::MAX) by (nonlinear_arith)
                requires
                    stores == 0 || n <= usize::MAX / stores,
                    stores >= 0,
            ;
        }
        let ghost dear = dearest(card_list(rows, want, eu_destination));
        let mut sum: u64 = 0;
        let mut c: usize = 0;
        assert(dear.take(0) =~= Seq::empty());
        while c < cards.len()
            invariant
                cards@.len() <= u32::MAX,
                wanted_views(cards@) == card_list(rows, want, eu_destination),
                dear == dearest(card_list(rows, want, eu_destination)),
                c <= cards@.len(),
                sum == total(dear.take(c as int)),
                sum <= u32::MAX * c,
            decreases cards@.len() - c,
        {
            proof {
                lemma_total_take(dear, c as int);
                assert(wanted_views(cards@)[c as int] == cards@[c as int]@);
                assert(u32::MAX * (c + 1) <= u32::MAX * 0x1_0000_0000) by (nonlinear_arith)
                    requires
                        c < u32::MAX,
                ;
                let opts = cards@[c as int].options@;
                if opts.len() > 0 {
                    assert(offers(opts).last() == opts.last()@);
                }
            }
            let opts = &cards[c].options;
            if opts.len() > 0 {
                sum = sum + opts[opts.len() - 1].price as u64;
            }
            c += 1;
        }
        assert(dear.take(c as int) =~= dear);
        if sum > MAX_TOTAL {
            return None;
        }
        let mut shipping_bases: Vec<u32> = Vec::new();
        let mut shipping_free_thresholds: Vec<u32> = Vec::new();
        let mut min_orders: Vec<u32> = Vec::new();
        let mut shipping_card_limits: Vec<u32> = Vec::new();
        let mut shipping_card_surcharges: Vec<u32> = Vec::new();
        let mut si: usize = 0;
        while si < stores
            invariant
                si <= stores,
                stores == store_names@.len(),
                shipping_bases@.len() == si,
                shipping_free_thresholds@.len() == si,
                min_orders@.len() == si,
                shipping_card_limits@.len() == si,
                shipping_card_surcharges@.len() == si,
                forall|k: int|
                    0 <= k < si ==> #[trigger] shipping_bases@[k] + shipping_card_surcharges@[k]
                        <= MAX_SHIPPING,
                forall|k: int|
                    0 <= k < si ==> (ShippingInfo {
                        base: #[trigger] shipping_bases@[k],
                        free_threshold: shipping_free_thresholds@[k],
                        min_order: min_orders@[k],
                        card_limit: shipping_card_limits@[k],
                        card_surcharge: shipping_card_surcharges@[k],
                    }) == local_terms(store_names@[k]@, eu_destination),
            decreases stores - si,
        {
            let info = find_terms(&store_names[si], eu_destination);
            shipping_bases.push(info.base);
            shipping_free_thresholds.push(info.free_threshold);
            min_orders.push(info.min_order);
            shipping_card_limits.push(info.card_limit);
            shipping_card_surcharges.push(info.card_surcharge);
            si += 1;
        }
        let (prices, option_indices) = price_matrix(&cards, stores);
        let store_cards = cards_by_store(&cards, stores);
        let input = WizardInput {
            cards,
            store_names,
            shipping_bases,
            shipping_free_thresholds,
            min_orders,
            shipping_card_limits,
            shipping_card_surcharges,
            prices,
            option_indices,
            store_cards,
        };
        proof {
            assert forall|ci: int| 0 <= ci < input.n_cards() implies #[trigger] input.card_ok(ci) by {
                let opts = input.cards@[ci].options@;
                assert(options_ok(opts, stores as nat));
                assert forall|a: int, b: int| 0 <= a <= b < opts.len() implies (
                #[trigger] opts[a]).price <= (#[trigger] opts[b]).price by {
                    assert(by_rank::<CardOption>()(opts[a]) <= by_rank::<CardOption>()(opts[b]));
                }
            }
            assert forall|ci: int, si: int|
                0 <= ci < input.n_cards() && 0 <= si < input.stores() implies #[trigger] input.cell_ok(
                ci,
                si,
            ) by {
                assert(cell_of(
                    input.cards@[ci].options@,
                    si,
                    input.prices@[ci * stores + si],
                    input.option_indices@[ci * stores + si],
                ));
            }
            assert forall|si: int| 0 <= si < input.stores() implies #[trigger] input.store_ok(si) by {
                let listed = input.store_cards@[si]@;
                assert(cards_listed(listed, input.cards@, si, input.n_cards() as int));
                assert forall|ci: usize| #[trigger] listed.contains(ci) <==> ci < input.n_cards()
                    && input.carried(ci as int, si) by {
                    let opts = input.cards@[ci as int].options@;
                    assert(input.options(ci as int) == opts);
                    if at_store(opts, si) {
                        let oi = choose|oi: int|
                            0 <= oi < opts.len() && (#[trigger] opts[oi]).store_idx == si;
                        assert(input.options(ci as int)[oi].store_idx == si);
                    }
                    if input.carried(ci as int, si) {
                        let oi = choose|oi: int|
                            0 <= oi < input.options(ci as int).len() && (#[trigger] input.options(
                                ci as int,
                            )[oi]).store_idx == si;
                        assert(opts[oi].store_idx == si);
                    }
                }
            }
            assert(input.top_prices() =~= dear) by {
                assert forall|ci: int| 0 <= ci < input.n_cards() implies input.top_prices()[ci]
                    == #[trigger] dear[ci] by {
                    assert(wanted_views(input.cards@)[ci] == input.cards@[ci]@);
                    let opts = input.cards@[ci].options@;
                    if opts.len() > 0 {
                        assert(offers(opts).last() == opts.last()@);
                    }
                }
            }
            assert forall|si: int| 0 <= si < input.stores() implies #[trigger] input.terms_at(si)
                == local_terms(store_list(rows, eu_destination)[si], eu_destination) by {
                assert(texts(input.store_names@)[si] == input.store_names@[si]@);
                assert(input.shipping_bases@[si] == input.terms_at(si).base);
            }
        }
        Some(input)
    }

    /// The wizard's input for the wanted cards.
    pub fn from_results_and_wants(
        results: Vec<StoreResult>,
        wanted_cards: &Vec<String>,
        eu_destination: bool,
    ) -> (input: Self)
        requires
            fits(listings(results@), texts(wanted_cards@), eu_destination),
        ensures
            input.wf(),
            input.built_from(listings(results@), texts(wanted_cards@), eu_destination),
    {
        match Self::try_from_results_and_wants(&results, wanted_cards, eu_destination) {
            Some(input) => input,
            None => vstd::pervasive::unreached(),
        }
    }
}

} // verus!
