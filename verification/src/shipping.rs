//! Shipping costs, seller blacklist, currency and VAT.
//!
//! All amounts are in oere.  Rates are kept as whole numbers so that every
//! amount is exact.

use crate::text::{
    after_prefix, begins, eq_ignore_ascii_case, lowercase, same_ignoring_case, same_text,
    starts_with,
};
use vstd::prelude::*;

verus! {

/// EUR to NOK conversion rate.
pub const EUR_TO_NOK: u32 = 11;

/// VAT multiplier for international orders, in percent (25% on price and shipping).
pub const VAT_MULTIPLIER_PERCENT: u32 = 125;

/// Customs declaration fee for private international sellers.
pub const CUSTOMS_FEE: u64 = 30000;

/// Number of cards before shipping switches to a larger envelope.
pub const CARD_TIER_THRESHOLD: u32 = 20;

/// Extra shipping above the card tier for Norwegian CardMarket sellers.
pub const NO_CARD_SURCHARGE: u32 = 3000;

/// Extra shipping above the card tier for international CardMarket sellers.
pub const INT_CARD_SURCHARGE: u32 = 2000;

/// The quotient `n / d` rounded to the nearest whole number, halves up.
pub open spec fn rounded(n: int, d: int) -> int {
    (2 * n + d) / (2 * d)
}

/// An amount cut off at what 32 bits hold.
pub open spec fn capped(n: int) -> int {
    if n > u32::MAX {
        u32::MAX as int
    } else {
        n
    }
}

/// Euro cents in oere, cut off at the largest representable amount.
pub fn eur_to_nok(cents: u32) -> (oere: u32)
    ensures
        oere == capped(cents * EUR_TO_NOK),
{
    assert(EUR_TO_NOK == 11);
    let rate: u64 = EUR_TO_NOK as u64;
    let n: u64 = rate * cents as u64;
    if n > u32::MAX as u64 {
        u32::MAX
    } else {
        n as u32
    }
}

/// A price with VAT, rounded, and cut off at the largest representable amount.
pub fn add_vat(price: u32) -> (with: u32)
    ensures
        with == capped(rounded(price * VAT_MULTIPLIER_PERCENT, 100)),
{
    let n: u64 = (2 * (price as u64 * 125) + 100) / 200;
    if n > u32::MAX as u64 {
        u32::MAX
    } else {
        n as u32
    }
}

/// A price without VAT, rounded.
pub fn strip_vat(price: u32) -> (without: u32)
    ensures
        without == rounded(price * 100, VAT_MULTIPLIER_PERCENT as int),
        without <= price,
{
    ((2 * (price as u64 * 100) + 125) / 250) as u32
}

/// Taking VAT off again gives the price before VAT.
pub proof fn law_vat_round_trip(price: u32)
    requires
        rounded(price * VAT_MULTIPLIER_PERCENT, 100) <= u32::MAX,
    ensures
        rounded(rounded(price * VAT_MULTIPLIER_PERCENT, 100) * 100, VAT_MULTIPLIER_PERCENT as int)
            == price,
{
    let with = rounded(price * 125, 100);
    assert(with == (250 * price + 100) / 200);
    assert(rounded(with * 100, 125) == (200 * with + 125) / 250);
}

/// Sellers that do not ship to Norway.
pub open spec fn blacklist() -> Seq<Seq<char>> {
    seq![
        "Itaca"@,
        "QuestVille-LP"@,
        "Najada-Games"@,
        "TCG-entertainment"@,
        "Goat-enterprise"@,
        "AsgardBCN"@,
        "templars-arena"@,
        "The-Archivist"@,
        "LGRMasterC"@,
        "ReCollectibles"@,
    ]
}

/// The name is on the blacklist, whatever its case.
pub open spec fn blacklisted(name: Seq<char>) -> bool {
    exists|i: int| 0 <= i < blacklist().len() && lowercase(#[trigger] blacklist()[i]) == lowercase(name)
}

fn blacklisted_sellers() -> (names: Vec<&'static str>)
    ensures
        names@.len() == blacklist().len(),
        forall|i: int| 0 <= i < names@.len() ==> (#[trigger] names@[i])@ == blacklist()[i],
{
    let names = vec![
        "Itaca",
        "QuestVille-LP",
        "Najada-Games",
        "TCG-entertainment",
        "Goat-enterprise",
        "AsgardBCN",
        "templars-arena",
        "The-Archivist",
        "LGRMasterC",
        "ReCollectibles",
    ];
    names
}

/// Is the seller on the blacklist?  The case does not matter.
pub fn is_blacklisted(name: &str) -> (b: bool)
    ensures
        b == blacklisted(name@),
{
    let lower = name.to_lowercase();
    let names = blacklisted_sellers();
    let mut i: usize = 0;
    while i < names.len()
        invariant
            i <= names@.len(),
            names@.len() == blacklist().len(),
            forall|k: int| 0 <= k < names@.len() ==> (#[trigger] names@[k])@ == blacklist()[k],
            lower@ == lowercase(name@),
            forall|k: int| 0 <= k < i ==> lowercase(#[trigger] blacklist()[k]) != lowercase(name@),
        decreases names@.len() - i,
    {
        if lower == names[i].to_lowercase() {
            assert(lowercase(blacklist()[i as int]) == lowercase(name@));
            return true;
        }
        i += 1;
    }
    false
}

/// The seller behind a store name: what follows the CardMarket prefix, or the
/// whole name for a storefront.
pub open spec fn seller_of(store: Seq<char>) -> Seq<char> {
    if starts_with(store, "cardmarket.com: "@) {
        store.skip("cardmarket.com: "@.len() as int)
    } else if starts_with(store, "cardmarket-int.com: "@) {
        store.skip("cardmarket-int.com: "@.len() as int)
    } else if starts_with(store, "cardmarket-int-private.com: "@) {
        store.skip("cardmarket-int-private.com: "@.len() as int)
    } else {
        store
    }
}

/// The seller name in a store name such as `cardmarket-int.com: MTGSPOT-DE`;
/// storefronts such as `outland.no` are returned as they are.
pub fn extract_seller_name(store_name: &str) -> (seller: String)
    ensures
        seller@ == seller_of(store_name@),
{
    if let Some(rest) = after_prefix(store_name, "cardmarket.com: ") {
        return rest;
    }
    if let Some(rest) = after_prefix(store_name, "cardmarket-int.com: ") {
        return rest;
    }
    if let Some(rest) = after_prefix(store_name, "cardmarket-int-private.com: ") {
        return rest;
    }
    store_name.to_owned()
}

/// Shipping terms of a single store or seller.
pub struct ShippingInfo {
    pub base: u32,
    /// Order value from which shipping is free (0 = never).
    pub free_threshold: u32,
    pub min_order: u32,
    /// Number of cards before a surcharge applies (0 = no tier).
    pub card_limit: u32,
    /// Extra shipping when the card count exceeds `card_limit`.
    pub card_surcharge: u32,
}

/// Base shipping of an international professional seller, VAT included.
pub open spec fn int_base(seller: Seq<char>) -> u32 {
    if same_ignoring_case(seller, "MagicBarcelona"@) || same_ignoring_case(seller, "Mazvigosl"@) {
        22000
    } else if same_ignoring_case(seller, "Yardbirds"@) {
        11206
    } else if same_ignoring_case(seller, "HamelinGames"@) {
        3575
    } else if same_ignoring_case(seller, "TrinketMage"@) || same_ignoring_case(
        seller,
        "MTGSPOT-DE"@,
    ) {
        2131
    } else {
        3750
    }
}

/// The seller in `store` after `prefix`, or nobody where the prefix is incomplete.
pub open spec fn seller_after(store: Seq<char>, prefix: Seq<char>) -> Seq<char> {
    if starts_with(store, prefix) {
        store.skip(prefix.len() as int)
    } else {
        Seq::empty()
    }
}

/// Terms of a storefront without tiers.
pub open spec fn flat(base: u32) -> ShippingInfo {
    ShippingInfo { base, free_threshold: 0, min_order: 0, card_limit: 0, card_surcharge: 0 }
}

/// Terms of a CardMarket seller.
pub open spec fn tiered(base: u32, surcharge: u32) -> ShippingInfo {
    ShippingInfo {
        base,
        free_threshold: 0,
        min_order: 0,
        card_limit: CARD_TIER_THRESHOLD,
        card_surcharge: surcharge,
    }
}

/// The shipping terms of a store or seller.
pub open spec fn terms(store: Seq<char>) -> ShippingInfo {
    if starts_with(store, "cardmarket.com:"@) {
        tiered(3080, NO_CARD_SURCHARGE)
    } else if starts_with(store, "cardmarket-int-private.com:"@) {
        tiered(
            (int_base(seller_after(store, "cardmarket-int-private.com: "@)) + CUSTOMS_FEE) as u32,
            INT_CARD_SURCHARGE,
        )
    } else if starts_with(store, "cardmarket-int.com:"@) {
        tiered(int_base(seller_after(store, "cardmarket-int.com: "@)), INT_CARD_SURCHARGE)
    } else if store == "finn.no"@ {
        flat(5000)
    } else if store == "midgardgames.no"@ {
        flat(10000)
    } else if store == "outland.no"@ {
        flat(5900)
    } else if store == "pokeboks.no"@ {
        ShippingInfo { min_order: 60000, ..flat(5000) }
    } else if store == "korthaien.no"@ {
        flat(5500)
    } else if store == "adamstuenretro.no"@ {
        flat(5000)
    } else if store == "collectible.no"@ {
        ShippingInfo { free_threshold: 200000, ..flat(4900) }
    } else {
        flat(0)
    }
}

fn storefront(base: u32, free_threshold: u32, min_order: u32) -> (info: ShippingInfo)
    ensures
        info == (ShippingInfo { free_threshold, min_order, ..flat(base) }),
{
    ShippingInfo { base, free_threshold, min_order, card_limit: 0, card_surcharge: 0 }
}

fn seller(base: u32, card_surcharge: u32) -> (info: ShippingInfo)
    ensures
        info == tiered(base, card_surcharge),
{
    ShippingInfo {
        base,
        free_threshold: 0,
        min_order: 0,
        card_limit: CARD_TIER_THRESHOLD,
        card_surcharge,
    }
}

/// The shipping terms of a store or seller, by name.
pub fn shipping_for(store_name: &str) -> (info: ShippingInfo)
    ensures
        info == terms(store_name@),
        info.base <= 52000,
        info.card_surcharge <= 3000,
{
    if begins(store_name, "cardmarket.com:") {
        return seller(3080, NO_CARD_SURCHARGE);
    }
    if begins(store_name, "cardmarket-int-private.com:") {
        let name = match after_prefix(store_name, "cardmarket-int-private.com: ") {
            Some(rest) => rest,
            None => String::new(),
        };
        let base = int_professional_shipping_base(&name);
        return seller((base as u64 + CUSTOMS_FEE) as u32, INT_CARD_SURCHARGE);
    }
    if begins(store_name, "cardmarket-int.com:") {
        let name = match after_prefix(store_name, "cardmarket-int.com: ") {
            Some(rest) => rest,
            None => String::new(),
        };
        return seller(int_professional_shipping_base(&name), INT_CARD_SURCHARGE);
    }
    if same_text(store_name, "finn.no") {
        storefront(5000, 0, 0)
    } else if same_text(store_name, "midgardgames.no") {
        storefront(10000, 0, 0)
    } else if same_text(store_name, "outland.no") {
        storefront(5900, 0, 0)
    } else if same_text(store_name, "pokeboks.no") {
        storefront(5000, 0, 60000)
    } else if same_text(store_name, "korthaien.no") {
        storefront(5500, 0, 0)
    } else if same_text(store_name, "adamstuenretro.no") {
        storefront(5000, 0, 0)
    } else if same_text(store_name, "collectible.no") {
        storefront(4900, 200000, 0)
    } else {
        storefront(0, 0, 0)
    }
}

/// Base shipping of an international professional CardMarket seller, VAT included.
fn int_professional_shipping_base(seller: &str) -> (base: u32)
    ensures
        base == int_base(seller@),
        base <= 22000,
{
    if eq_ignore_ascii_case(seller, "MagicBarcelona") || eq_ignore_ascii_case(seller, "Mazvigosl") {
        return 22000;
    }
    if eq_ignore_ascii_case(seller, "Yardbirds") {
        return 11206;
    }
    if eq_ignore_ascii_case(seller, "HamelinGames") {
        return 3575;
    }
    if eq_ignore_ascii_case(seller, "TrinketMage") || eq_ignore_ascii_case(seller, "MTGSPOT-DE") {
        return 2131;
    }
    3750
}

/// A private seller costs the customs fee more than the professional of the same name.
pub proof fn law_private_pays_customs(name: Seq<char>)
    ensures
        terms("cardmarket-int-private.com: "@ + name).base == terms(
            "cardmarket-int.com: "@ + name,
        ).base + CUSTOMS_FEE,
{
    reveal_strlit("cardmarket.com:");
    reveal_strlit("cardmarket-int-private.com:");
    reveal_strlit("cardmarket-int-private.com: ");
    reveal_strlit("cardmarket-int.com:");
    reveal_strlit("cardmarket-int.com: ");
    let a = "cardmarket-int-private.com: "@ + name;
    let b = "cardmarket-int.com: "@ + name;
    lemma_not_prefix(a, "cardmarket.com:"@, 10);
    lemma_not_prefix(b, "cardmarket.com:"@, 10);
    lemma_not_prefix(b, "cardmarket-int-private.com:"@, 14);
    assert(a.subrange(0, "cardmarket-int-private.com:"@.len() as int)
        =~= "cardmarket-int-private.com:"@);
    assert(a.subrange(0, "cardmarket-int-private.com: "@.len() as int)
        =~= "cardmarket-int-private.com: "@);
    assert(b.subrange(0, "cardmarket-int.com:"@.len() as int) =~= "cardmarket-int.com:"@);
    assert(b.subrange(0, "cardmarket-int.com: "@.len() as int) =~= "cardmarket-int.com: "@);
    assert(a.skip("cardmarket-int-private.com: "@.len() as int) =~= name);
    assert(b.skip("cardmarket-int.com: "@.len() as int) =~= name);
}

/// A text does not start with a prefix that differs from it somewhere.
proof fn lemma_not_prefix(s: Seq<char>, p: Seq<char>, i: int)
    requires
        0 <= i < p.len(),
        i < s.len(),
        s[i] != p[i],
    ensures
        !starts_with(s, p),
{
    if starts_with(s, p) {
        assert(s.subrange(0, p.len() as int)[i] == p[i]);
    }
}

} // verus!
