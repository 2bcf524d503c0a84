//! What shipping costs at the stores and sellers.

use crate::shipping::{seller_of, terms, ShippingInfo};
use crate::stores::Listing;
use crate::text::{same_ignoring_case, starts_with, texts};
use crate::wizard::input::{local_terms, store_list};
use crate::wizard::model::WizardInput;
use crate::wizard::score::shipping_fee;
use vstd::prelude::*;

verus! {

/// A text starts with what stands in front of it.
pub proof fn lemma_prefix(p: Seq<char>, rest: Seq<char>)
    ensures
        starts_with(p + rest, p),
        (p + rest).skip(p.len() as int) == rest,
{
    let s = p + rest;
    assert(s.subrange(0, p.len() as int) =~= p);
    assert(s.skip(p.len() as int) =~= rest);
}

/// A text does not start with a prefix that differs from it somewhere.
pub proof fn lemma_no_prefix(s: Seq<char>, p: Seq<char>, i: int)
    requires
        0 <= i < p.len(),
        i < s.len(),
        s[i] != p[i],
    ensures
        !starts_with(s, p),
{
    if starts_with(s, p) {
        assert(s.subrange(0, p.len() as int)[i] == p[i]);
    }
}

/// Which of CardMarket's prefixes a seller's store name has.
pub proof fn lemma_seller_prefixes(name: Seq<char>)
    ensures
        ({
            let no = "cardmarket.com: "@ + name;
            let power = "cardmarket-int.com: "@ + name;
            let private = "cardmarket-int-private.com: "@ + name;
            &&& starts_with(no, "cardmarket.com:"@)
            &&& starts_with(no, "cardmarket.com: "@)
            &&& no.skip("cardmarket.com: "@.len() as int) == name
            &&& !starts_with(no, "cardmarket-int.com:"@)
            &&& !starts_with(no, "cardmarket-int-private.com:"@)
            &&& starts_with(power, "cardmarket-int.com:"@)
            &&& starts_with(power, "cardmarket-int.com: "@)
            &&& power.skip("cardmarket-int.com: "@.len() as int) == name
            &&& !starts_with(power, "cardmarket.com:"@)
            &&& !starts_with(power, "cardmarket.com: "@)
            &&& !starts_with(power, "cardmarket-int-private.com:"@)
            &&& starts_with(private, "cardmarket-int-private.com:"@)
            &&& starts_with(private, "cardmarket-int-private.com: "@)
            &&& private.skip("cardmarket-int-private.com: "@.len() as int) == name
            &&& !starts_with(private, "cardmarket.com:"@)
            &&& !starts_with(private, "cardmarket.com: "@)
            &&& !starts_with(private, "cardmarket-int.com:"@)
            &&& !starts_with(private, "cardmarket-int.com: "@)
        }),
{
    reveal_strlit("cardmarket.com:");
    reveal_strlit("cardmarket.com: ");
    reveal_strlit("cardmarket-int.com:");
    reveal_strlit("cardmarket-int.com: ");
    reveal_strlit("cardmarket-int-private.com:");
    reveal_strlit("cardmarket-int-private.com: ");
    let no = "cardmarket.com: "@ + name;
    let power = "cardmarket-int.com: "@ + name;
    let private = "cardmarket-int-private.com: "@ + name;
    lemma_prefix("cardmarket.com: "@, name);
    lemma_prefix("cardmarket-int.com: "@, name);
    lemma_prefix("cardmarket-int-private.com: "@, name);
    assert(no =~= "cardmarket.com:"@ + (seq![' '] + name));
    assert(power =~= "cardmarket-int.com:"@ + (seq![' '] + name));
    assert(private =~= "cardmarket-int-private.com:"@ + (seq![' '] + name));
    lemma_prefix("cardmarket.com:"@, seq![' '] + name);
    lemma_prefix("cardmarket-int.com:"@, seq![' '] + name);
    lemma_prefix("cardmarket-int-private.com:"@, seq![' '] + name);
    lemma_no_prefix(no, "cardmarket-int.com:"@, 10);
    lemma_no_prefix(no, "cardmarket-int-private.com:"@, 10);
    lemma_no_prefix(power, "cardmarket.com:"@, 10);
    lemma_no_prefix(power, "cardmarket.com: "@, 10);
    lemma_no_prefix(power, "cardmarket-int-private.com:"@, 14);
    lemma_no_prefix(private, "cardmarket.com:"@, 10);
    lemma_no_prefix(private, "cardmarket.com: "@, 10);
    lemma_no_prefix(private, "cardmarket-int.com:"@, 14);
    lemma_no_prefix(private, "cardmarket-int.com: "@, 14);
}

/// Every CardMarket seller charges more above 20 cards: 30 kr in Norway, 20 kr
/// abroad.  None ships for free or asks for a minimum order, and a private seller
/// abroad costs 300 kr of customs more than a professional one.
pub proof fn law_seller_terms(name: Seq<char>)
    ensures
        ({
            let no = terms("cardmarket.com: "@ + name);
            let power = terms("cardmarket-int.com: "@ + name);
            let private = terms("cardmarket-int-private.com: "@ + name);
            &&& no == ShippingInfo {
                base: 3080,
                free_threshold: 0,
                min_order: 0,
                card_limit: 20,
                card_surcharge: 3000,
            }
            &&& power.card_limit == 20 && power.card_surcharge == 2000
            &&& power.free_threshold == 0 && power.min_order == 0
            &&& 2131 <= power.base <= 22000
            &&& private == ShippingInfo { base: (power.base + 30000) as u32, ..power }
        }),
{
    lemma_seller_prefixes(name);
}

/// The sellers abroad that do not ship for 37.50 kr, in any case of their letters.
pub proof fn law_sellers_with_own_rates(name: Seq<char>)
    ensures
        ({
            let base = terms("cardmarket-int.com: "@ + name).base;
            &&& same_ignoring_case(name, "MagicBarcelona"@) ==> base == 22000
            &&& same_ignoring_case(name, "Mazvigosl"@) ==> base == 22000
            &&& same_ignoring_case(name, "Yardbirds"@) ==> base == 11206
            &&& same_ignoring_case(name, "HamelinGames"@) ==> base == 3575
            &&& same_ignoring_case(name, "TrinketMage"@) ==> base == 2131
            &&& same_ignoring_case(name, "MTGSPOT-DE"@) ==> base == 2131
            &&& base != 3750 ==> same_ignoring_case(name, "MagicBarcelona"@)
                || same_ignoring_case(name, "Mazvigosl"@) || same_ignoring_case(name, "Yardbirds"@)
                || same_ignoring_case(name, "HamelinGames"@) || same_ignoring_case(
                name,
                "TrinketMage"@,
            ) || same_ignoring_case(name, "MTGSPOT-DE"@)
        }),
{
    lemma_seller_prefixes(name);
    reveal_strlit("MagicBarcelona");
    reveal_strlit("Mazvigosl");
    reveal_strlit("Yardbirds");
    reveal_strlit("HamelinGames");
    reveal_strlit("TrinketMage");
    reveal_strlit("MTGSPOT-DE");
    lemma_lower_len(name, "MagicBarcelona"@);
    lemma_lower_len(name, "Mazvigosl"@);
    lemma_lower_len(name, "Yardbirds"@);
    lemma_lower_len(name, "HamelinGames"@);
    lemma_lower_len(name, "TrinketMage"@);
    lemma_lower_len(name, "MTGSPOT-DE"@);
    if same_ignoring_case(name, "Yardbirds"@) {
        lemma_lower_at(name, "Yardbirds"@, "Mazvigosl"@, 0);
    }
}

proof fn lemma_lower_len(a: Seq<char>, b: Seq<char>)
    ensures
        same_ignoring_case(a, b) ==> a.len() == b.len(),
{
    assert(crate::text::ascii_lower(a).len() == a.len());
    assert(crate::text::ascii_lower(b).len() == b.len());
}

/// A text is not the same as two that differ.
proof fn lemma_lower_at(s: Seq<char>, a: Seq<char>, b: Seq<char>, i: int)
    requires
        same_ignoring_case(s, a),
        0 <= i < a.len(),
        i < b.len(),
        crate::text::ascii_lower_char(a[i]) != crate::text::ascii_lower_char(b[i]),
    ensures
        !same_ignoring_case(s, b),
{
    assert(crate::text::ascii_lower(a)[i] == crate::text::ascii_lower_char(a[i]));
    if same_ignoring_case(s, b) {
        assert(crate::text::ascii_lower(b)[i] == crate::text::ascii_lower_char(b[i]));
    }
}

/// The seller's name in a store name is what follows the prefix.
pub proof fn law_seller_names(name: Seq<char>)
    ensures
        seller_of("cardmarket.com: "@ + name) == name,
        seller_of("cardmarket-int.com: "@ + name) == name,
        seller_of("cardmarket-int-private.com: "@ + name) == name,
{
    lemma_seller_prefixes(name);
}

/// A storefront has no card limit.  Only pokeboks.no asks for a minimum order
/// (600 kr), and only collectible.no ships for free (from 2000 kr on).
pub proof fn law_storefront_terms(store: Seq<char>)
    requires
        !starts_with(store, "cardmarket"@),
    ensures
        terms(store).card_limit == 0,
        terms(store).card_surcharge == 0,
        terms(store).min_order == if store == "pokeboks.no"@ {
            60000u32
        } else {
            0
        },
        terms(store).free_threshold == if store == "collectible.no"@ {
            200000u32
        } else {
            0
        },
        terms(store).base <= 10000,
        terms(store).base > 0 ==> store == "finn.no"@ || store == "midgardgames.no"@ || store
            == "outland.no"@ || store == "pokeboks.no"@ || store == "korthaien.no"@ || store
            == "adamstuenretro.no"@ || store == "collectible.no"@,
        store == "finn.no"@ || store == "pokeboks.no"@ || store == "adamstuenretro.no"@
            ==> terms(store).base == 5000,
        store == "midgardgames.no"@ ==> terms(store).base == 10000,
        store == "outland.no"@ ==> terms(store).base == 5900,
        store == "korthaien.no"@ ==> terms(store).base == 5500,
        store == "collectible.no"@ ==> terms(store).base == 4900,
{
    reveal_strlit("cardmarket");
    reveal_strlit("cardmarket.com:");
    reveal_strlit("cardmarket-int.com:");
    reveal_strlit("cardmarket-int-private.com:");
    lemma_longer_prefix(store, "cardmarket"@, "cardmarket.com:"@);
    lemma_longer_prefix(store, "cardmarket"@, "cardmarket-int.com:"@);
    lemma_longer_prefix(store, "cardmarket"@, "cardmarket-int-private.com:"@);
    reveal_strlit("finn.no");
    reveal_strlit("midgardgames.no");
    reveal_strlit("outland.no");
    reveal_strlit("pokeboks.no");
    reveal_strlit("korthaien.no");
    reveal_strlit("adamstuenretro.no");
    reveal_strlit("collectible.no");
    assert("finn.no"@.len() == 7 && "midgardgames.no"@.len() == 15);
    assert("outland.no"@[0] == 'o' && "pokeboks.no"@[0] == 'p' && "korthaien.no"@[0] == 'k');
    assert("finn.no"@[0] == 'f' && "midgardgames.no"@[0] == 'm');
    assert("adamstuenretro.no"@[0] == 'a' && "collectible.no"@[0] == 'c');
}

pub proof fn lemma_longer_prefix(s: Seq<char>, short: Seq<char>, long: Seq<char>)
    requires
        !starts_with(s, short),
        short.len() <= long.len(),
        forall|i: int| 0 <= i < short.len() ==> short[i] == #[trigger] long[i],
    ensures
        !starts_with(s, long),
{
    if starts_with(s, long) {
        assert forall|i: int| 0 <= i < short.len() implies s[i] == short[i] by {
            assert(s.subrange(0, long.len() as int)[i] == long[i]);
        }
        assert(s.subrange(0, short.len() as int) =~= short);
    }
}

/// Within the EU, what a seller abroad asks for shipping comes without the 25% VAT
/// and without customs; nothing else of any store's terms changes.
pub proof fn law_eu_terms(name: Seq<char>, store: Seq<char>)
    ensures
        ({
            let power = "cardmarket-int.com: "@ + name;
            let private = "cardmarket-int-private.com: "@ + name;
            let net = local_terms(power, true).base;
            &&& local_terms(store, false) == terms(store)
            &&& -125 <= 2 * (125 * net - 100 * terms(power).base) <= 125
            &&& local_terms(power, true) == ShippingInfo { base: net, ..terms(power) }
            &&& local_terms(private, true) == ShippingInfo { base: net, ..terms(private) }
            &&& local_terms("cardmarket.com: "@ + name, true) == terms("cardmarket.com: "@ + name)
            &&& !starts_with(store, "cardmarket"@) ==> local_terms(store, true) == terms(store)
        }),
{
    lemma_seller_prefixes(name);
    law_seller_terms(name);
    if !starts_with(store, "cardmarket"@) {
        reveal_strlit("cardmarket");
        reveal_strlit("cardmarket-int.com:");
        reveal_strlit("cardmarket-int-private.com:");
        lemma_longer_prefix(store, "cardmarket"@, "cardmarket-int.com:"@);
        lemma_longer_prefix(store, "cardmarket"@, "cardmarket-int-private.com:"@);
    }
}

/// An order of more than 20 cards at a CardMarket seller ships for exactly 30 kr
/// (Norway) or 20 kr (abroad) more than one of up to 20 cards for the same amount.
pub proof fn law_large_orders_cost_more(
    input: &WizardInput,
    rows: Seq<Listing>,
    wanted: Seq<Seq<char>>,
    eu: bool,
    si: int,
    name: Seq<char>,
    amount: int,
    many: int,
    few: int,
)
    requires
        input.built_from(rows, wanted, eu),
        0 <= si < input.stores(),
        amount > 0,
        many > 20,
        few <= 20,
    ensures
        input.store_names@[si]@ == "cardmarket.com: "@ + name ==> {
            &&& shipping_fee(input, si, amount, many) == shipping_fee(input, si, amount, few) + 3000
            &&& shipping_fee(input, si, amount, few) == 3080
        },
        input.store_names@[si]@ == "cardmarket-int.com: "@ + name ==> shipping_fee(
            input,
            si,
            amount,
            many,
        ) == shipping_fee(input, si, amount, few) + 2000,
        input.store_names@[si]@ == "cardmarket-int-private.com: "@ + name ==> shipping_fee(
            input,
            si,
            amount,
            many,
        ) == shipping_fee(input, si, amount, few) + 2000,
{
    let stores = store_list(rows, eu);
    let store = input.store_names@[si]@;
    assert(texts(input.store_names@)[si] == store);
    assert(input.terms_at(si) == local_terms(store, eu));
    law_seller_terms(name);
    law_eu_terms(name, store);
    lemma_seller_prefixes(name);
}

} // verus!
