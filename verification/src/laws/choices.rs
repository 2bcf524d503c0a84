//! Which products of a search the Norwegian stores offer.

use crate::stores::{
    adamstuen, collectible, korthaien, midgard, outland, pokeboks, titled, Listing, Product,
};
use crate::stores::finn::{ad_listing, AdDetail, SearchDoc};
use crate::stores::page::product_listing;
use crate::text::{contains, ends_with, lowercase, matches_at, same_ignoring_case};
use vstd::prelude::*;

verus! {

/// A title names a card that stands somewhere in it, whatever the case of the letters.
pub proof fn law_titles_name_cards(
    card: Seq<char>,
    title: Seq<char>,
    before: Seq<char>,
    after: Seq<char>,
)
    ensures
        lowercase(title) == before + lowercase(card) + after ==> titled(card, title),
        titled(card, title) ==> exists|i: int|
            0 <= i && i + lowercase(card).len() <= lowercase(title).len() && #[trigger] lowercase(
                title,
            ).subrange(i, i + lowercase(card).len()) == lowercase(card),
{
    let t = lowercase(title);
    let c = lowercase(card);
    if t == before + c + after {
        let i = before.len() as int;
        assert(t.subrange(i, i + c.len()) =~= c);
        assert(matches_at(t, i, c));
    }
    if titled(card, title) {
        let i = choose|i: int| #[trigger] matches_at(t, i, c);
        assert(t.subrange(i, i + c.len()) == c);
    }
}

/// A product in stock whose title names the card.
pub open spec fn on_offer(card: Seq<char>, p: Product) -> bool {
    p.in_stock && contains(lowercase(p.name), lowercase(card))
}

/// The product as a listing of the card at a store.
pub open spec fn listed_at(store: Seq<char>, card: Seq<char>, p: Product) -> Listing {
    Listing { store, card, price: p.price, url: p.url }
}

proof fn lemma_adamstuen_best(card: Seq<char>, found: Seq<Product>)
    ensures
        match adamstuen::best_index(card, found) {
            Some(i) => {
                &&& 0 <= i < found.len()
                &&& on_offer(card, found[i])
                &&& forall|k: int|
                    0 <= k < found.len() && on_offer(card, #[trigger] found[k])
                        ==> found[i].price <= found[k].price && (k < i ==> found[i].price
                        < found[k].price)
            },
            None => forall|k: int| 0 <= k < found.len() ==> !on_offer(card, #[trigger] found[k]),
        },
    decreases found.len(),
{
    if found.len() > 0 {
        let rest = found.drop_last();
        lemma_adamstuen_best(card, rest);
        assert forall|k: int| 0 <= k < rest.len() implies #[trigger] found[k] == rest[k] by {}
    }
}

/// adamstuenretro.no offers the cheapest product in stock that names the card, the
/// first among equals, and nothing only where there is none.
pub proof fn law_adamstuen_offers_the_cheapest(card: Seq<char>, found: Seq<Product>)
    ensures
        ({
            let chosen = adamstuen::chosen(card, found);
            &&& chosen.len() <= 1
            &&& chosen.len() == 0 <==> forall|k: int|
                0 <= k < found.len() ==> !on_offer(card, #[trigger] found[k])
            &&& chosen.len() == 1 ==> exists|i: int|
                0 <= i < found.len() && on_offer(card, #[trigger] found[i]) && chosen[0]
                    == listed_at("adamstuenretro.no"@, card, found[i]) && forall|k: int|
                    0 <= k < found.len() && on_offer(card, #[trigger] found[k])
                        ==> found[i].price <= found[k].price && (k < i ==> found[i].price
                        < found[k].price)
        }),
{
    lemma_adamstuen_best(card, found);
    if let Some(i) = adamstuen::best_index(card, found) {
        assert(adamstuen::chosen(card, found)[0] == listed_at("adamstuenretro.no"@, card, found[i]));
    }
}

/// pokeboks.no offers every product in stock that names the card, in order.
pub proof fn law_pokeboks_offers_all(card: Seq<char>, found: Seq<Product>)
    ensures
        pokeboks::matching(card, found) == found.filter(
            |p: Product| on_offer(card, p),
        ).map_values(|p: Product| listed_at("pokeboks.no"@, card, p)),
    decreases found.len(),
{
    reveal(Seq::filter);
    let f = |p: Product| listed_at("pokeboks.no"@, card, p);
    let q = |p: Product| on_offer(card, p);
    if found.len() > 0 {
        let rest = found.drop_last();
        law_pokeboks_offers_all(card, rest);
        let kept = rest.filter(q);
        assert(kept.push(found.last()).map_values(f) =~= kept.map_values(f).push(f(found.last())));
    } else {
        assert(found.filter(q).map_values(f) =~= Seq::empty());
    }
}

/// midgardgames.no offers every product in stock that names the card and whose page
/// shows a Magic card, in order.
pub proof fn law_midgard_offers_magic_cards(
    card: Seq<char>,
    found: Seq<Product>,
    magic: Seq<bool>,
)
    requires
        magic.len() == found.len(),
    ensures
        midgard::confirmed(card, found, magic) == Seq::new(
            found.len(),
            |i: int| (found[i], magic[i]),
        ).filter(|p: (Product, bool)| on_offer(card, p.0) && p.1).map_values(
            |p: (Product, bool)| listed_at("midgardgames.no"@, card, p.0),
        ),
    decreases found.len(),
{
    reveal(Seq::filter);
    let f = |p: (Product, bool)| listed_at("midgardgames.no"@, card, p.0);
    let q = |p: (Product, bool)| on_offer(card, p.0) && p.1;
    let all = Seq::new(found.len(), |i: int| (found[i], magic[i]));
    if found.len() > 0 {
        let a = found.drop_last();
        let b = magic.drop_last();
        law_midgard_offers_magic_cards(card, a, b);
        let rest = Seq::new(a.len(), |i: int| (a[i], b[i]));
        assert(all.drop_last() =~= rest);
        let kept = rest.filter(q);
        assert(kept.push(all.last()).map_values(f) =~= kept.map_values(f).push(f(all.last())));
    } else {
        assert(all.filter(q).map_values(f) =~= Seq::empty());
    }
}

proof fn lemma_collectible_first(card: Seq<char>, found: Seq<Product>, from: int)
    requires
        0 <= from <= found.len(),
    ensures
        match collectible::first_index(card, found, from) {
            Some(i) => {
                &&& from <= i < found.len()
                &&& titled(card, found[i].name)
                &&& forall|k: int| from <= k < i ==> !titled(card, (#[trigger] found[k]).name)
            },
            None => forall|k: int|
                from <= k < found.len() ==> !titled(card, (#[trigger] found[k]).name),
        },
    decreases found.len() - from,
{
    if from < found.len() && !titled(card, found[from].name) {
        lemma_collectible_first(card, found, from + 1);
    }
}

/// collectible.no offers the first product whose title names the card, and nothing
/// only where there is none.
pub proof fn law_collectible_offers_the_first(card: Seq<char>, found: Seq<Product>)
    ensures
        ({
            let chosen = collectible::chosen(card, found);
            &&& chosen.len() <= 1
            &&& chosen.len() == 0 <==> forall|k: int|
                0 <= k < found.len() ==> !contains(
                    lowercase((#[trigger] found[k]).name),
                    lowercase(card),
                )
            &&& chosen.len() == 1 ==> exists|i: int|
                0 <= i < found.len() && contains(
                    lowercase((#[trigger] found[i]).name),
                    lowercase(card),
                ) && chosen[0] == listed_at("collectible.no"@, card, found[i]) && forall|k: int|
                    0 <= k < i ==> !contains(
                        lowercase((#[trigger] found[k]).name),
                        lowercase(card),
                    )
        }),
{
    lemma_collectible_first(card, found, 0);
    if let Some(i) = collectible::first_index(card, found, 0) {
        assert(titled(card, found[i].name));
        assert(collectible::chosen(card, found)[0] == listed_at("collectible.no"@, card, found[i]));
        assert forall|k: int| 0 <= k < i implies !contains(
            lowercase((#[trigger] found[k]).name),
            lowercase(card),
        ) by {
            assert(!titled(card, found[k].name));
        }
    } else {
        assert forall|k: int| 0 <= k < found.len() implies !contains(
            lowercase((#[trigger] found[k]).name),
            lowercase(card),
        ) by {
            assert(!titled(card, found[k].name));
        }
    }
}

/// A text followed by an ending ends with it.
pub proof fn lemma_suffix(s: Seq<char>, p: Seq<char>)
    ensures
        ends_with(s + p, p),
        (s + p).take((s + p).len() - p.len()) == s,
{
    let t = s + p;
    assert(t.subrange(t.len() - p.len(), t.len() as int) =~= p);
    assert(t.take(t.len() - p.len()) =~= s);
}

/// At outland.no, a product is the card by its name without the mark of single
/// cards, whatever the case of the letters.
pub proof fn law_outland_matches_names(card: Seq<char>, name: Seq<char>)
    ensures
        outland::is_match(card, name + " (Enkeltkort)"@) <==> same_ignoring_case(card, name),
        outland::is_match(card, name + " (enkeltkort)"@) <==> same_ignoring_case(card, name),
        !ends_with(name, " (Enkeltkort)"@) && !ends_with(name, " (enkeltkort)"@) ==> (
        outland::is_match(card, name) <==> same_ignoring_case(card, name)),
{
    lemma_suffix(name, " (Enkeltkort)"@);
    lemma_suffix(name, " (enkeltkort)"@);
    reveal_strlit(" (Enkeltkort)");
    reveal_strlit(" (enkeltkort)");
    let low = name + " (enkeltkort)"@;
    let p = " (Enkeltkort)"@;
    if ends_with(low, p) {
        assert(low.subrange(low.len() - p.len(), low.len() as int)[2] == p[2]);
    }
}

proof fn lemma_outland_first(card: Seq<char>, items: Seq<outland::ProductItem>, from: int)
    requires
        0 <= from <= items.len(),
    ensures
        match outland::first_match(card, items, from) {
            Some(i) => {
                &&& from <= i < items.len()
                &&& outland::is_match(card, items[i].name@)
                &&& forall|k: int|
                    from <= k < i ==> !outland::is_match(card, (#[trigger] items[k]).name@)
            },
            None => forall|k: int|
                from <= k < items.len() ==> !outland::is_match(card, (#[trigger] items[k]).name@),
        },
    decreases items.len() - from,
{
    if from < items.len() && !outland::is_match(card, items[from].name@) {
        lemma_outland_first(card, items, from + 1);
    }
}

/// outland.no offers the first product that is the card, at its price and address,
/// and nothing only where there is none.
pub proof fn law_outland_offers_the_first(card: Seq<char>, items: Seq<outland::ProductItem>)
    ensures
        ({
            let chosen = outland::chosen(card, items);
            &&& chosen.len() <= 1
            &&& chosen.len() == 0 <==> forall|k: int|
                0 <= k < items.len() ==> !outland::is_match(card, (#[trigger] items[k]).name@)
            &&& chosen.len() == 1 ==> exists|i: int|
                0 <= i < items.len() && outland::is_match(card, (#[trigger] items[i]).name@)
                    && chosen[0] == (Listing {
                    store: "outland.no"@,
                    card,
                    price: items[i].price,
                    url: "https://www.outland.no"@ + "/"@ + items[i].url_key@,
                }) && forall|k: int|
                    0 <= k < i ==> !outland::is_match(card, (#[trigger] items[k]).name@)
        }),
{
    lemma_outland_first(card, items, 0);
    if let Some(i) = outland::first_match(card, items, 0) {
        assert(outland::is_match(card, items[i].name@));
        assert(outland::chosen(card, items).len() == 1);
    }
}

/// At korthaien.no, a product is the card by its name without the mark of foils,
/// whatever the case of the letters.
pub proof fn law_korthaien_matches_names(card: Seq<char>, name: Seq<char>)
    ensures
        korthaien::is_match(card, name + " (foil)"@) <==> same_ignoring_case(card, name),
        korthaien::is_match(card, name + " (Foil)"@) <==> same_ignoring_case(card, name),
        korthaien::is_match(card, name + " (FOIL)"@) <==> same_ignoring_case(card, name),
        !ends_with(name, " (foil)"@) && !ends_with(name, " (Foil)"@) && !ends_with(
            name,
            " (FOIL)"@,
        ) ==> (korthaien::is_match(card, name) <==> same_ignoring_case(card, name)),
{
    lemma_suffix(name, " (foil)"@);
    lemma_suffix(name, " (Foil)"@);
    lemma_suffix(name, " (FOIL)"@);
    reveal_strlit(" (foil)");
    reveal_strlit(" (Foil)");
    reveal_strlit(" (FOIL)");
    let b = name + " (Foil)"@;
    let c = name + " (FOIL)"@;
    let p = " (foil)"@;
    let q = " (Foil)"@;
    if ends_with(b, p) {
        assert(b.subrange(b.len() - p.len(), b.len() as int)[2] == p[2]);
    }
    if ends_with(c, p) {
        assert(c.subrange(c.len() - p.len(), c.len() as int)[2] == p[2]);
    }
    if ends_with(c, q) {
        assert(c.subrange(c.len() - q.len(), c.len() as int)[3] == q[3]);
    }
}

/// korthaien.no offers a product in stock that is the card, if there is one: a plain
/// one if any is plain, and the cheapest of its kind.
pub proof fn law_korthaien_offers_the_best(
    card: Seq<char>,
    found: Seq<Product>,
    chosen: Seq<Listing>,
)
    requires
        korthaien::is_choice(card, found, chosen),
    ensures
        chosen.len() <= 1,
        chosen.len() == 0 <==> forall|k: int|
            0 <= k < found.len() ==> !((#[trigger] found[k]).in_stock && korthaien::is_match(
                card,
                found[k].name,
            )),
        chosen.len() == 1 ==> exists|i: int|
            0 <= i < found.len() && (#[trigger] found[i]).in_stock && korthaien::is_match(
                card,
                found[i].name,
            ) && chosen[0] == listed_at("korthaien.no"@, card, found[i]) && (forall|k: int|
                0 <= k < found.len() && (#[trigger] found[k]).in_stock && korthaien::is_match(
                    card,
                    found[k].name,
                ) && plain_name(card, found[k]) ==> plain_name(card, found[i]) && found[i].price
                    <= found[k].price) && (forall|k: int|
                0 <= k < found.len() && (#[trigger] found[k]).in_stock && korthaien::is_match(
                    card,
                    found[k].name,
                ) && !plain_name(card, found[i]) ==> found[i].price <= found[k].price),
{
    if exists|i: int| 0 <= i < found.len() && korthaien::available(card, #[trigger] found[i]) {
        let i = choose|i: int|
            0 <= i < found.len() && korthaien::available(card, #[trigger] found[i]) && chosen
                == seq![product_listing("korthaien.no"@, card, found[i])] && (forall|k: int|
                0 <= k < found.len() && korthaien::available(card, #[trigger] found[k])
                    ==> !korthaien::better(card, found[k], found[i])) && (forall|k: int|
                0 <= k < i && korthaien::available(card, #[trigger] found[k])
                    ==> korthaien::better(card, found[i], found[k]));
        assert(found[i].in_stock && korthaien::is_match(card, found[i].name));
        assert(chosen[0] == listed_at("korthaien.no"@, card, found[i]));
        assert forall|k: int|
            0 <= k < found.len() && (#[trigger] found[k]).in_stock && korthaien::is_match(
                card,
                found[k].name,
            ) implies !korthaien::better(card, found[k], found[i]) by {
            assert(korthaien::available(card, found[k]));
        }
    } else {
        assert forall|k: int| 0 <= k < found.len() implies !((#[trigger] found[k]).in_stock
            && korthaien::is_match(card, found[k].name)) by {
            assert(!korthaien::available(card, found[k]));
        }
    }
}

/// The product goes by the card's own name, up to case and white space around it.
pub open spec fn plain_name(card: Seq<char>, p: Product) -> bool {
    same_ignoring_case(card, crate::text::trim(p.name))
}

/// An ad on finn.no is a listing exactly if its description names the card and does
/// not mention Pokemon.  It stands under its seller, at the price in oere.
pub proof fn law_finn_lists_ads(card: Seq<char>, doc: SearchDoc, detail: AdDetail)
    ensures
        ({
            let text = lowercase(detail.description@);
            let listed = ad_listing(card, doc, detail);
            &&& listed is Some <==> contains(text, lowercase(card)) && !contains(text, "pokemon"@)
            &&& listed matches Some(l) ==> {
                &&& l.store == "finn.no: "@ + detail.seller_name@
                &&& l.card == card
                &&& (doc.amount is Some && 0 <= doc.amount->0 <= 42949672 ==> l.price == 100
                    * doc.amount->0)
                &&& doc.amount is None ==> l.price == 0
                &&& doc.canonical_url matches Some(u) ==> l.url == u@
                &&& doc.canonical_url is None ==> l.url
                    == "https://www.finn.no/recommerce/forsale/item/"@ + doc.id@
            }
        }),
{
    reveal_strlit("finn.no");
    reveal_strlit(": ");
    reveal_strlit("finn.no: ");
    reveal_strlit("https://www.finn.no/recommerce/forsale/item");
    reveal_strlit("/");
    reveal_strlit("https://www.finn.no/recommerce/forsale/item/");
    assert("finn.no"@ + ": "@ =~= "finn.no: "@);
    assert("https://www.finn.no/recommerce/forsale/item"@ + "/"@
        =~= "https://www.finn.no/recommerce/forsale/item/"@);
}

} // verus!
