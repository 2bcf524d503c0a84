use cardfetch::shipping::{
    add_vat, eur_to_nok, extract_seller_name, is_blacklisted, shipping_for, strip_vat, EUR_TO_NOK,
    VAT_MULTIPLIER_PERCENT,
};

#[test]
fn shipping_test_eur_to_nok_conversion() {
    let eur_cents = 1250u32;
    let nok_oere = eur_to_nok(eur_cents);
    assert_eq!(nok_oere, 13750);
}

#[test]
fn test_blacklisted_seller_filtered() {
    assert!(is_blacklisted("Itaca"));
    assert!(is_blacklisted("itaca"));
    assert!(is_blacklisted("ITACA"));
    assert!(is_blacklisted("QuestVille-LP"));
    assert!(is_blacklisted("questville-lp"));
    assert!(!is_blacklisted("MagicBarcelona"));
    assert!(!is_blacklisted("SomeOtherSeller"));
}

#[test]
fn test_shipping_lookup_norwegian_seller() {
    let s = shipping_for("cardmarket.com: SomeSeller");
    assert_eq!(s.base, 3080);
}

#[test]
fn test_shipping_lookup_int_default() {
    let s = shipping_for("cardmarket-int.com: UnknownSeller");
    assert_eq!(s.base, 3750);
}

#[test]
fn test_shipping_lookup_mazvigosl() {
    let s = shipping_for("cardmarket-int.com: Mazvigosl");
    assert_eq!(s.base, 22000);
}

#[test]
fn test_shipping_lookup_hamelin() {
    let s = shipping_for("cardmarket-int.com: HamelinGames");
    assert_eq!(s.base, 3575);
}

#[test]
fn test_shipping_lookup_yardbirds() {
    let s = shipping_for("cardmarket-int.com: Yardbirds");
    assert_eq!(s.base, 11206);
}

#[test]
fn test_shipping_lookup_trinketmage() {
    let s = shipping_for("cardmarket-int.com: TrinketMage");
    assert_eq!(s.base, 2131);
}

#[test]
fn test_shipping_lookup_mtgspot_de() {
    let s = shipping_for("cardmarket-int.com: MTGSPOT-DE");
    assert_eq!(s.base, 2131);
}

#[test]
fn test_blacklisted_najada() {
    assert!(is_blacklisted("Najada-Games"));
    assert!(is_blacklisted("najada-games"));
    assert!(is_blacklisted("NAJADA-GAMES"));
}

#[test]
fn test_blacklisted_tcg_entertainment() {
    assert!(is_blacklisted("TCG-entertainment"));
    assert!(is_blacklisted("tcg-entertainment"));
    assert!(is_blacklisted("TCG-ENTERTAINMENT"));
}

#[test]
fn test_blacklisted_goat_enterprise() {
    assert!(is_blacklisted("Goat-enterprise"));
    assert!(is_blacklisted("goat-enterprise"));
    assert!(is_blacklisted("GOAT-ENTERPRISE"));
}

#[test]
fn test_shipping_lookup_private_int_default() {
    let s = shipping_for("cardmarket-int-private.com: UnknownSeller");
    // Default int shipping (3750) + customs fee (30000) = 33750
    assert_eq!(s.base, 33750);
}

#[test]
fn test_shipping_lookup_private_int_mazvigosl() {
    let s = shipping_for("cardmarket-int-private.com: Mazvigosl");
    // Mazvigosl shipping (22000) + customs fee (30000) = 52000
    assert_eq!(s.base, 52000);
}

#[test]
fn test_shipping_lookup_private_int_hamelin() {
    let s = shipping_for("cardmarket-int-private.com: HamelinGames");
    // HamelinGames shipping (3575) + customs fee (30000) = 33575
    assert_eq!(s.base, 33575);
}

#[test]
fn cardmarket_test_eur_to_nok_conversion() {
    let eur_cents = 100u32;
    let nok_oere = eur_to_nok(eur_cents);
    let expected_vat = add_vat(nok_oere);
    // Just verify the constants are reasonable
    assert!(EUR_TO_NOK > 10 && EUR_TO_NOK < 13);
    assert!(VAT_MULTIPLIER_PERCENT > 120 && VAT_MULTIPLIER_PERCENT < 130);
    assert!(nok_oere > 1000);
    assert!(expected_vat > nok_oere);
}

#[test]
fn vat_is_rounded_and_taken_off_again() {
    assert_eq!(add_vat(1100), 1375);
    assert_eq!(add_vat(2), 3);
    assert_eq!(strip_vat(1375), 1100);
    for price in [0u32, 1, 2, 3, 99, 1234, 987_654] {
        assert_eq!(strip_vat(add_vat(price)), price);
    }
}

#[test]
fn amounts_stop_at_the_largest_number() {
    assert_eq!(eur_to_nok(u32::MAX), u32::MAX);
    assert_eq!(add_vat(u32::MAX), u32::MAX);
}

#[test]
fn storefront_terms() {
    assert_eq!(shipping_for("collectible.no").free_threshold, 200000);
    assert_eq!(shipping_for("pokeboks.no").min_order, 60000);
    assert_eq!(shipping_for("outland.no").base, 5900);
    assert_eq!(shipping_for("somewhere.no").base, 0);
    assert!(shipping_for("cardmarket.com: A").card_surcharge > 0);
}

#[test]
fn seller_names_lose_their_prefix() {
    assert_eq!(extract_seller_name("cardmarket-int.com: MTGSPOT-DE"), "MTGSPOT-DE");
    assert_eq!(extract_seller_name("cardmarket.com: A"), "A");
    assert_eq!(extract_seller_name("outland.no"), "outland.no");
}
