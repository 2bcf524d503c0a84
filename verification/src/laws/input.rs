//! What the wizard's input holds for a destination.

use crate::laws::shipping::{lemma_longer_prefix, lemma_seller_prefixes};
use crate::order::law_stable_sorted;
use crate::shipping::{blacklist, blacklisted, seller_of};
use crate::stores::Listing;
use crate::text::{lowercase, starts_with, texts};
use crate::wizard::input::{
    by_price, card_list, extra_cards, local_price, offers, offers_of, ships, sorted_offers,
    store_list, wanted_views, without_vat, Offer,
};
use crate::wizard::model::WizardInput;
use vstd::prelude::*;

verus! {

/// Within the EU, a price of a seller abroad, professional or private, comes without
/// the 25% VAT: it is four fifths of the listed price, rounded, and gives back a price
/// that VAT was added to.  Every other price stays.
pub proof fn law_eu_prices(row: Listing, name: Seq<char>, net: int)
    ensures
        local_price(row, false) == row.price,
        row.store == "cardmarket-int.com: "@ + name || row.store == "cardmarket-int-private.com: "@
            + name ==> {
            &&& -125 <= 2 * (125 * local_price(row, true) - 100 * row.price) <= 125
            &&& 0 <= net && row.price == (250 * net + 100) / 200 ==> local_price(row, true) == net
        },
        row.store == "cardmarket.com: "@ + name ==> local_price(row, true) == row.price,
        !starts_with(row.store, "cardmarket"@) ==> local_price(row, true) == row.price,
{
    lemma_seller_prefixes(name);
    lemma_without_vat(row.price as int, net);
    if !starts_with(row.store, "cardmarket"@) {
        reveal_strlit("cardmarket");
        reveal_strlit("cardmarket-int.com:");
        reveal_strlit("cardmarket-int-private.com:");
        lemma_longer_prefix(row.store, "cardmarket"@, "cardmarket-int.com:"@);
        lemma_longer_prefix(row.store, "cardmarket"@, "cardmarket-int-private.com:"@);
    }
}

proof fn lemma_without_vat(price: int, net: int)
    requires
        0 <= price <= u32::MAX,
    ensures
        0 <= without_vat(price) <= u32::MAX,
        -125 <= 2 * (125 * without_vat(price) - 100 * price) <= 125,
        0 <= net && price == (250 * net + 100) / 200 ==> without_vat(price) == net,
{
    let w = without_vat(price);
    assert(w == (200 * price + 125) / 250);
    assert(250 * w <= 200 * price + 125 < 250 * w + 250);
    if 0 <= net && price == (250 * net + 100) / 200 {
        assert(200 * price <= 250 * net + 100 < 200 * price + 200);
    }
}

/// The ten sellers that do not ship to Norway, in any case of their letters.
pub proof fn law_blacklist(name: Seq<char>)
    ensures
        blacklisted(name) <==> {
            let l = lowercase(name);
            ||| l == lowercase("Itaca"@)
            ||| l == lowercase("QuestVille-LP"@)
            ||| l == lowercase("Najada-Games"@)
            ||| l == lowercase("TCG-entertainment"@)
            ||| l == lowercase("Goat-enterprise"@)
            ||| l == lowercase("AsgardBCN"@)
            ||| l == lowercase("templars-arena"@)
            ||| l == lowercase("The-Archivist"@)
            ||| l == lowercase("LGRMasterC"@)
            ||| l == lowercase("ReCollectibles"@)
        },
{
    let b = blacklist();
    assert(b[0] == "Itaca"@ && b[1] == "QuestVille-LP"@ && b[2] == "Najada-Games"@);
    assert(b[3] == "TCG-entertainment"@ && b[4] == "Goat-enterprise"@ && b[5] == "AsgardBCN"@);
    assert(b[6] == "templars-arena"@ && b[7] == "The-Archivist"@ && b[8] == "LGRMasterC"@);
    assert(b[9] == "ReCollectibles"@);
    assert(b.len() == 10);
}

/// A seller on the blacklist is left out for Norway and taken within the EU; every
/// other seller is taken for both.
pub proof fn law_who_ships(row: Listing)
    ensures
        ships(row, true),
        ships(row, false) <==> !blacklisted(seller_of(row.store)),
{
}

/// The store has a listing that ships.
pub open spec fn has_listing(rows: Seq<Listing>, store: Seq<char>, eu: bool) -> bool {
    exists|i: int| 0 <= i < rows.len() && ships(#[trigger] rows[i], eu) && rows[i].store == store
}

/// The stores are those of the listings that ship, each once.
pub proof fn law_stores_of_listings(rows: Seq<Listing>, eu: bool)
    ensures
        store_list(rows, eu).no_duplicates(),
        forall|i: int|
            0 <= i < rows.len() && ships(#[trigger] rows[i], eu) ==> store_list(rows, eu).contains(
                rows[i].store,
            ),
        forall|k: int|
            0 <= k < store_list(rows, eu).len() ==> #[trigger] has_listing(
                rows,
                store_list(rows, eu)[k],
                eu,
            ),
    decreases rows.len(),
{
    if rows.len() > 0 {
        let init = rows.drop_last();
        law_stores_of_listings(init, eu);
        let rest = store_list(init, eu);
        let all = store_list(rows, eu);
        assert forall|i: int| 0 <= i < rows.len() && ships(#[trigger] rows[i], eu) implies all.contains(
            rows[i].store,
        ) by {
            if i < init.len() {
                assert(init[i] == rows[i]);
                assert(rest.contains(init[i].store));
                let k = choose|k: int| 0 <= k < rest.len() && rest[k] == rows[i].store;
                assert(all[k] == rows[i].store);
            } else if rest.contains(rows[i].store) {
                let k = choose|k: int| 0 <= k < rest.len() && rest[k] == rows[i].store;
                assert(all[k] == rows[i].store);
            } else {
                assert(all[rest.len() as int] == rows[i].store);
            }
        }
        assert forall|k: int| 0 <= k < all.len() implies #[trigger] has_listing(rows, all[k], eu) by {
            if k < rest.len() {
                assert(has_listing(init, rest[k], eu));
                let i = choose|i: int|
                    0 <= i < init.len() && ships(#[trigger] init[i], eu) && init[i].store == rest[k];
                assert(rows[i] == init[i]);
            } else {
                assert(ships(rows[rows.len() - 1], eu));
            }
        }
    }
}

/// The listing is an offer of the card at the destination.
pub open spec fn offers_card(row: Listing, card: Seq<char>, eu: bool) -> bool {
    row.card == card && row.price > 0 && (eu || !blacklisted(seller_of(row.store)))
}

/// The offer is the one that the listing makes: its store by name, its link and its
/// price at the destination.
pub open spec fn made_from(o: Offer, row: Listing, stores: Seq<Seq<char>>, eu: bool) -> bool {
    &&& o.store < stores.len()
    &&& stores[o.store as int] == row.store
    &&& o.url == row.url
    &&& o.price == local_price(row, eu)
}

proof fn lemma_offers_of(rows: Seq<Listing>, stores: Seq<Seq<char>>, eu: bool, card: Seq<char>)
    requires
        stores.len() <= usize::MAX,
        forall|i: int|
            0 <= i < rows.len() && ships(#[trigger] rows[i], eu) ==> stores.contains(rows[i].store),
    ensures
        ({
            let found = offers_of(rows, stores, eu, card);
            let from = rows.filter(|r: Listing| offers_card(r, card, eu));
            &&& found.len() == from.len()
            &&& forall|k: int|
                0 <= k < found.len() ==> made_from(#[trigger] found[k], from[k], stores, eu)
        }),
    decreases rows.len(),
{
    reveal(Seq::filter);
    if rows.len() > 0 {
        let init = rows.drop_last();
        assert forall|i: int| 0 <= i < init.len() && ships(#[trigger] init[i], eu) implies stores.contains(
            init[i].store,
        ) by {
            assert(rows[i] == init[i]);
        }
        lemma_offers_of(init, stores, eu, card);
        if offers_card(rows.last(), card, eu) {
            assert(ships(rows[rows.len() - 1], eu));
        }
    }
}

/// The listings that offer a card.
pub open spec fn listings_of(rows: Seq<Listing>, card: Seq<char>, eu: bool) -> Seq<Listing> {
    rows.filter(|r: Listing| offers_card(r, card, eu))
}

/// Option `k` is made from one of the listings.
pub open spec fn has_source(
    options: Seq<Offer>,
    k: int,
    from: Seq<Listing>,
    stores: Seq<Seq<char>>,
    eu: bool,
) -> bool {
    exists|j: int| 0 <= j < from.len() && made_from(options[k], #[trigger] from[j], stores, eu)
}

/// Listing `j` is made into one of the options.
pub open spec fn has_offer(
    options: Seq<Offer>,
    from: Seq<Listing>,
    j: int,
    stores: Seq<Seq<char>>,
    eu: bool,
) -> bool {
    exists|k: int| 0 <= k < options.len() && made_from(#[trigger] options[k], from[j], stores, eu)
}

/// The card holds the listings of the name: as many options as there are such
/// listings, each made from one of them, each of them made into one, cheapest first.
pub open spec fn holds_listings(
    input: &WizardInput,
    ci: int,
    rows: Seq<Listing>,
    card: Seq<char>,
    eu: bool,
) -> bool {
    let options = offers(input.cards@[ci].options@);
    let from = listings_of(rows, card, eu);
    let stores = texts(input.store_names@);
    &&& options.len() == from.len()
    &&& forall|k: int| 0 <= k < options.len() ==> #[trigger] has_source(options, k, from, stores, eu)
    &&& forall|j: int| 0 <= j < from.len() ==> #[trigger] has_offer(options, from, j, stores, eu)
    &&& forall|a: int, b: int|
        0 <= a <= b < options.len() ==> (#[trigger] options[a]).price <= (
        #[trigger] options[b]).price
}

proof fn lemma_options_from(
    options: Seq<Offer>,
    found: Seq<Offer>,
    from: Seq<Listing>,
    stores: Seq<Seq<char>>,
    eu: bool,
    k: int,
)
    requires
        found.len() == from.len(),
        forall|j: int| 0 <= j < found.len() ==> made_from(#[trigger] found[j], from[j], stores, eu),
        forall|y: Offer| #[trigger] options.contains(y) <==> found.contains(y),
    ensures
        0 <= k < options.len() ==> has_source(options, k, from, stores, eu),
        0 <= k < from.len() ==> has_offer(options, from, k, stores, eu),
{
    if 0 <= k < options.len() {
        assert(options.contains(options[k]));
        let j = choose|j: int| 0 <= j < found.len() && found[j] == options[k];
        assert(made_from(found[j], from[j], stores, eu));
    }
    if 0 <= k < from.len() {
        assert(found.contains(found[k]));
        assert(options.contains(found[k]));
        let j = choose|j: int| 0 <= j < options.len() && options[j] == found[k];
        assert(made_from(found[k], from[k], stores, eu));
    }
}

proof fn lemma_holds(
    input: &WizardInput,
    ci: int,
    rows: Seq<Listing>,
    card: Seq<char>,
    eu: bool,
)
    requires
        rows.len() <= u32::MAX,
        texts(input.store_names@) == store_list(rows, eu),
        0 <= ci < input.cards@.len(),
        offers(input.cards@[ci].options@) == sorted_offers(rows, eu, card),
    ensures
        holds_listings(input, ci, rows, card, eu),
{
    let stores = store_list(rows, eu);
    let found = offers_of(rows, stores, eu, card);
    let from = listings_of(rows, card, eu);
    let options = offers(input.cards@[ci].options@);
    assert(stores.len() <= u32::MAX) by {
        lemma_store_count(rows, eu);
    }
    assert forall|i: int| 0 <= i < rows.len() && ships(#[trigger] rows[i], eu) implies stores.contains(
        rows[i].store,
    ) by {
        law_stores_of_listings(rows, eu);
    }
    lemma_offers_of(rows, stores, eu, card);
    law_stable_sorted(found, by_price());
    assert(options.len() == from.len());
    assert forall|k: int| 0 <= k < options.len() implies #[trigger] has_source(
        options,
        k,
        from,
        stores,
        eu,
    ) by {
        lemma_options_from(options, found, from, stores, eu, k);
    }
    assert forall|j: int| 0 <= j < from.len() implies #[trigger] has_offer(
        options,
        from,
        j,
        stores,
        eu,
    ) by {
        lemma_options_from(options, found, from, stores, eu, j);
    }
    assert forall|a: int, b: int| 0 <= a <= b < options.len() implies (#[trigger] options[a]).price
        <= (#[trigger] options[b]).price by {
        assert(by_price()(options[a]) <= by_price()(options[b]));
    }
}

proof fn lemma_store_count(rows: Seq<Listing>, eu: bool)
    ensures
        store_list(rows, eu).len() <= rows.len(),
    decreases rows.len(),
{
    if rows.len() > 0 {
        lemma_store_count(rows.drop_last(), eu);
    }
}

/// The input lists the wanted cards in order, each with all of its listings that
/// have a price and ship to the destination, and none else; a name that was wanted
/// before has none left.
pub proof fn law_input_holds_the_listings(
    input: &WizardInput,
    rows: Seq<Listing>,
    wanted: Seq<Seq<char>>,
    eu: bool,
    ci: int,
)
    requires
        input.built_from(rows, wanted, eu),
        rows.len() <= u32::MAX,
        0 <= ci < wanted.len(),
    ensures
        ci < input.cards@.len(),
        input.cards@[ci].name@ == wanted[ci],
        !wanted.take(ci).contains(wanted[ci]) ==> holds_listings(input, ci, rows, wanted[ci], eu),
        wanted.take(ci).contains(wanted[ci]) ==> input.cards@[ci].options@.len() == 0,
{
    let views = wanted_views(input.cards@);
    assert(views.len() == input.cards@.len());
    assert(views[ci] == input.cards@[ci]@);
    assert(card_list(rows, wanted, eu)[ci].name == wanted[ci]);
    if !wanted.take(ci).contains(wanted[ci]) {
        lemma_holds(input, ci, rows, wanted[ci], eu);
    } else {
        assert(offers(input.cards@[ci].options@).len() == input.cards@[ci].options@.len());
    }
}

proof fn lemma_extras(rows: Seq<Listing>, wanted: Seq<Seq<char>>, eu: bool)
    ensures
        ({
            let extra = extra_cards(rows, wanted, eu);
            &&& extra.no_duplicates()
            &&& forall|k: int| 0 <= k < extra.len() ==> !wanted.contains(#[trigger] extra[k])
            &&& forall|i: int|
                0 <= i < rows.len() && offers_card(#[trigger] rows[i], rows[i].card, eu)
                    ==> wanted.contains(rows[i].card) || extra.contains(rows[i].card)
        }),
    decreases rows.len(),
{
    if rows.len() > 0 {
        let init = rows.drop_last();
        lemma_extras(init, wanted, eu);
        let rest = extra_cards(init, wanted, eu);
        let all = extra_cards(rows, wanted, eu);
        assert forall|i: int|
            0 <= i < rows.len() && offers_card(#[trigger] rows[i], rows[i].card, eu) implies
            wanted.contains(rows[i].card) || all.contains(rows[i].card) by {
            let card = rows[i].card;
            if i < init.len() {
                assert(init[i] == rows[i]);
            }
            if rest.contains(card) {
                let k = choose|k: int| 0 <= k < rest.len() && rest[k] == card;
                assert(all[k] == card);
            } else if !wanted.contains(card) {
                assert(i == init.len());
                assert(all[rest.len() as int] == card);
            }
        }
    }
}

/// Behind the wanted cards come the others that are on offer, each once and with
/// all of its listings.
pub proof fn law_input_holds_the_others(
    input: &WizardInput,
    rows: Seq<Listing>,
    wanted: Seq<Seq<char>>,
    eu: bool,
)
    requires
        input.built_from(rows, wanted, eu),
        rows.len() <= u32::MAX,
    ensures
        input.cards@.len() >= wanted.len(),
        forall|ci: int|
            wanted.len() <= ci < input.cards@.len() ==> !wanted.contains(
                (#[trigger] input.cards@[ci]).name@,
            ) && holds_listings(input, ci, rows, input.cards@[ci].name@, eu),
        forall|a: int, b: int|
            wanted.len() <= a < b < input.cards@.len() ==> (#[trigger] input.cards@[a]).name@ != (
            #[trigger] input.cards@[b]).name@,
        forall|i: int|
            0 <= i < rows.len() && offers_card(#[trigger] rows[i], rows[i].card, eu)
                ==> wanted.contains(rows[i].card) || exists|ci: int|
                wanted.len() <= ci < input.cards@.len() && (#[trigger] input.cards@[ci]).name@
                    == rows[i].card,
{
    let views = wanted_views(input.cards@);
    let extra = extra_cards(rows, wanted, eu);
    let all = card_list(rows, wanted, eu);
    let n = wanted.len() as int;
    assert(views.len() == input.cards@.len());
    lemma_extras(rows, wanted, eu);
    assert forall|ci: int| n <= ci < input.cards@.len() implies (#[trigger] input.cards@[ci]).name@
        == extra[ci - n] && holds_listings(input, ci, rows, input.cards@[ci].name@, eu) by {
        assert(views[ci] == input.cards@[ci]@);
        assert(all[ci].name == extra[ci - n]);
        lemma_holds(input, ci, rows, input.cards@[ci].name@, eu);
    }
    assert forall|i: int| 0 <= i < rows.len() && offers_card(#[trigger] rows[i], rows[i].card, eu)
        && !wanted.contains(rows[i].card) implies exists|ci: int|
        n <= ci < input.cards@.len() && (#[trigger] input.cards@[ci]).name@ == rows[i].card by {
        let k = choose|k: int| 0 <= k < extra.len() && extra[k] == rows[i].card;
        assert(input.cards@[n + k].name@ == extra[k]);
    }
}

/// The price matrix holds the lowest price of a card at a store, and nothing where
/// the store does not carry the card.
pub proof fn law_matrix_holds_lowest_prices(input: &WizardInput, ci: int, si: int)
    requires
        input.wf(),
        0 <= ci < input.cards@.len(),
        0 <= si < input.store_names@.len(),
    ensures
        forall|oi: int|
            0 <= oi < input.cards@[ci].options@.len() && (
            #[trigger] input.cards@[ci].options@[oi]).store_idx == si ==> input.cheapest_price(
                ci,
                si,
            ) <= input.cards@[ci].options@[oi].price,
        input.cheapest_price(ci, si) < u32::MAX <==> input.cheapest(ci, si) is Some,
        input.cheapest(ci, si) matches Some(oi) ==> {
            &&& oi < input.cards@[ci].options@.len()
            &&& input.cards@[ci].options@[oi as int].store_idx == si
            &&& input.cards@[ci].options@[oi as int].price == input.cheapest_price(ci, si)
        },
{
    assert(input.cell_ok(ci, si));
    assert(input.card_ok(ci));
    let opts = input.options(ci);
    assert forall|oi: int| 0 <= oi < opts.len() && (#[trigger] opts[oi]).store_idx == si implies
        input.cheapest_price(ci, si) <= opts[oi].price by {
        if let Some(k) = input.cheapest(ci, si) {
            assert(opts[k as int].price <= opts[oi].price);
        }
    }
}

} // verus!
