use cardfetch::output::format_price;
use cardfetch::shipping::is_blacklisted;
use cardfetch::stores::adamstuen::Adamstuen;
use cardfetch::stores::cardmarket::{
    decode_page, extract_ajax_rows, extract_csrf, extract_metacard_id, is_blocked, is_browser_dead,
    is_challenge, load_more_sellers, make_cardmarket_offer_url, next_load_more, norwegian_url,
    parse_card_page, parse_eur_price, percent_encode_card_name, private_url, professional_url, rescue_item,
    results_from_rescue, sellers_to_results, try_extract_sellers, CardMarket, CardPageError,
    CardResults, FailureAction, LoadMoreError, RescueError, RescuedSeller, SubStart,
};
use cardfetch::stores::collectible::Collectible;
use cardfetch::stores::finn::{ad_detail, ad_result, AdDetail, AdError, SearchDoc};
use cardfetch::stores::korthaien::{pick_best, strip_foil, Korthaien};
use cardfetch::stores::outland::{strip_enkeltkort, Outland, ProductItem};
use cardfetch::stores::pokeboks::parse_search_html;
use cardfetch::stores::price::ScrapeError;
use cardfetch::stores::{
    adamstuen, collectible, finn, korthaien, midgard, outland, pokeboks, title_contains,
    title_to_slug, urlencode_plus, SearchProduct, Store,
};

#[test]
fn adamstuen_test_store_name() {
    let store = Adamstuen::new();
    assert_eq!(store.name(), "adamstuenretro.no");
}

#[test]
fn adamstuen_test_parse_price() {
    assert_eq!(adamstuen::parse_price("4 NOK"), Some(400));
    assert_eq!(adamstuen::parse_price("1,499 NOK"), Some(149900));
    assert_eq!(adamstuen::parse_price("  6 NOK  "), Some(600));
    assert_eq!(adamstuen::parse_price("3,499 NOK"), Some(349900));
    assert_eq!(adamstuen::parse_price(""), None);
    assert_eq!(adamstuen::parse_price("abc"), None);
}

#[test]
fn adamstuen_test_title_contains() {
    assert!(title_contains(
        "Snakeskin Veil",
        "Snakeskin Veil (Kaldheim)"
    ));
    assert!(title_contains(
        "snakeskin veil",
        "Snakeskin Veil (Strixhaven Mystical Archive)"
    ));
    assert!(!title_contains("Black Lotus", "Snakeskin Veil (Kaldheim)"));
}

#[test]
fn adamstuen_test_parse_search_results() {
    let html = r#"<div class="product-layout has-extra-button">
            <div class="product-thumb">
                <div class="caption">
                    <div class="name"><a href="https://adamstuenretro.no/kaldheim-snakeskin-veil">Snakeskin Veil (Kaldheim)</a></div>
                    <div class="price">
                        <div>
                            <span class="price-normal">4 NOK</span>
                        </div>
                    </div>
                    <div class="buttons-wrapper">
                        <div class="button-group">
                            <div class="cart-group">
                                <a class="btn btn-cart" onclick="cart.add('193784')"><span class="btn-text">Legg i handlevogn</span></a>
                            </div>
                        </div>
                    </div>
                </div>
            </div>
        </div>"#;

    let products = adamstuen::parse_search_results(html).unwrap();
    assert_eq!(products.len(), 1);
    assert_eq!(products[0].name, "Snakeskin Veil (Kaldheim)");
    assert_eq!(products[0].price, 400);
    assert!(products[0].in_stock);
    assert_eq!(
        products[0].url,
        "https://adamstuenretro.no/kaldheim-snakeskin-veil"
    );
}

#[test]
fn adamstuen_test_parse_search_results_out_of_stock() {
    // Out-of-stock products lack the btn-cart
    let html = r#"<div class="product-layout">
            <div class="product-thumb">
                <div class="caption">
                    <div class="name"><a href="https://adamstuenretro.no/test">Test Card</a></div>
                    <div class="price">
                        <span class="price-normal">10 NOK</span>
                    </div>
                </div>
            </div>
        </div>"#;

    let products = adamstuen::parse_search_results(html).unwrap();
    assert_eq!(products.len(), 1);
    assert!(!products[0].in_stock);
}

#[test]
fn test_title_to_slug() {
    assert_eq!(title_to_slug("Evolving Wilds"), "Evolving-Wilds");
    assert_eq!(title_to_slug("Find // Finality"), "Find-Finality");
    assert_eq!(title_to_slug("Hydra's Growth"), "Hydras-Growth");
}

#[test]
fn test_parse_eur_price() {
    assert_eq!(parse_eur_price("0,02 €"), Some(2));
    assert_eq!(parse_eur_price("1,50 €"), Some(150));
    assert_eq!(parse_eur_price("10,00 €"), Some(1000));
    assert_eq!(parse_eur_price("123,45 €"), Some(12345));
    assert_eq!(parse_eur_price("0.02 EUR"), Some(2));
    assert_eq!(parse_eur_price("1.50"), Some(150));
    assert_eq!(parse_eur_price(""), None);
    assert_eq!(parse_eur_price("N/A"), None);
}

#[test]
fn collectible_test_store_name() {
    let store = Collectible::new();
    assert_eq!(store.name(), "collectible.no");
}

#[test]
fn collectible_test_parse_price() {
    assert_eq!(collectible::parse_price("3,90 kr"), Some(390));
    assert_eq!(collectible::parse_price("  3,90  kr  "), Some(390));
    assert_eq!(collectible::parse_price("15,00"), Some(1500));
    assert_eq!(collectible::parse_price("0,50 kr"), Some(50));
}

#[test]
fn collectible_test_title_contains() {
    assert!(title_contains(
        "Opal Palace",
        "Commander Legends - 352 - Opal Palace - Common - C - Non-foil"
    ));
    assert!(title_contains(
        "opal palace",
        "Commander Legends - 352 - Opal Palace - Common - C - Non-foil"
    ));
    assert!(!title_contains(
        "Black Lotus",
        "Commander Legends - 352 - Opal Palace - Common - C - Non-foil"
    ));
}

#[test]
fn test_urlencode() {
    assert_eq!(urlencode_plus("Opal Palace"), "Opal+Palace");
    assert_eq!(urlencode_plus("snakeskin veil"), "snakeskin+veil");
}

#[test]
fn test_strip_foil() {
    assert_eq!(strip_foil("Snakeskin Veil (foil)"), "Snakeskin Veil");
    assert_eq!(strip_foil("Snakeskin Veil (Foil)"), "Snakeskin Veil");
    assert_eq!(strip_foil("Snakeskin Veil (FOIL)"), "Snakeskin Veil");
    assert_eq!(strip_foil("Snakeskin Veil"), "Snakeskin Veil");
}

#[test]
fn korthaien_test_names_match() {
    assert!(korthaien::names_match("Snakeskin Veil", "Snakeskin Veil"));
    assert!(korthaien::names_match("Snakeskin Veil", "Snakeskin Veil (foil)"));
    assert!(korthaien::names_match("Snakeskin Veil", "Snakeskin Veil (Foil)"));
    assert!(korthaien::names_match("snakeskin veil", "Snakeskin Veil"));
    assert!(!korthaien::names_match("Snakeskin", "Snakeskin Veil"));
    assert!(!korthaien::names_match("Other Card", "Snakeskin Veil"));
}

#[test]
fn korthaien_test_parse_price() {
    assert_eq!(korthaien::parse_price("6,-"), Some(600));
    assert_eq!(korthaien::parse_price("  12,-  "), Some(1200));
    assert_eq!(korthaien::parse_price("4,-"), Some(400));
    assert_eq!(korthaien::parse_price("105,-"), Some(10500));
    assert_eq!(korthaien::parse_price(""), None);
    assert_eq!(korthaien::parse_price("abc"), None);
}

#[test]
fn korthaien_test_store_name() {
    let store = Korthaien::new();
    assert_eq!(store.name(), "korthaien.no");
}

#[test]
fn test_pick_best_prefers_non_foil() {
    let non_foil = SearchProduct {
        name: "Snakeskin Veil".into(),
        price: 1000,
        url: "/nf".into(),
        in_stock: true,
    };
    let foil = SearchProduct {
        name: "Snakeskin Veil (foil)".into(),
        price: 500,
        url: "/f".into(),
        in_stock: true,
    };
    let entries = [&non_foil, &foil];
    let best = pick_best(&entries, "Snakeskin Veil").unwrap();
    assert_eq!(best.url, "/nf");
}

#[test]
fn test_pick_best_cheapest_non_foil_first() {
    let exp = SearchProduct {
        name: "Snakeskin Veil".into(),
        price: 1000,
        url: "/exp".into(),
        in_stock: true,
    };
    let cheap = SearchProduct {
        name: "Snakeskin Veil".into(),
        price: 400,
        url: "/cheap".into(),
        in_stock: true,
    };
    let entries = [&exp, &cheap];
    let best = pick_best(&entries, "Snakeskin Veil").unwrap();
    assert_eq!(best.url, "/cheap");
}

#[test]
fn test_parse_search_results_real_html() {
    // Simulate a product card from the actual site
    let html = r#"<article data-stock-quantity="6" class="product-thumb-info relative z-0 bg-white">
            <a class="pb_v7_title pb_title block font-light text-base" href="https://www.korthaien.no/products/snakeskin-veilst">
                Snakeskin Veil
            </a>
            <p style="color:#000" class="mr-2 text-xl font-bold">5,-</p>
        </article>"#;

    let products = korthaien::parse_search_results(html).unwrap();
    assert_eq!(products.len(), 1);
    assert_eq!(products[0].name, "Snakeskin Veil");
    assert_eq!(products[0].price, 500);
    assert!(products[0].in_stock);
    assert_eq!(
        products[0].url,
        "https://www.korthaien.no/products/snakeskin-veilst"
    );
}

#[test]
fn korthaien_test_parse_search_results_out_of_stock() {
    let html = r#"<article data-stock-quantity="0" class="product-thumb-info relative z-0 bg-white">
            <a class="pb_title" href="https://www.korthaien.no/products/golgari-signet">
                Golgari Signet
            </a>
            <p class="text-xl font-bold">15,-</p>
        </article>"#;

    let products = korthaien::parse_search_results(html).unwrap();
    assert_eq!(products.len(), 1);
    assert!(!products[0].in_stock);
}

#[test]
fn printed_prices_are_read_back() {
    for x in [0u32, 5, 10, 99, 100, 1999, 123456, u32::MAX - 1, u32::MAX] {
        let text = format_price(x);
        assert_eq!(pokeboks::parse_price(&text), Some(x));
        assert_eq!(collectible::parse_price(&text), Some(x));
        assert_eq!(midgard::parse_price(&text), Some(x));
    }
    for (w, f) in [(0u32, 0u32), (0, 7), (12, 30), (42949671, 99)] {
        assert_eq!(parse_eur_price(&format!("{w},{f:02} €")), Some(100 * w + f));
        assert_eq!(parse_eur_price(&format!("{w}.{f:02} EUR")), Some(100 * w + f));
    }
}

#[test]
fn card_names_in_queries() {
    assert_eq!(percent_encode_card_name("Opt"), "Opt");
    assert_eq!(
        percent_encode_card_name("Lim-Dûl's Vault"),
        "Lim-D%C3%BBl%27s%20Vault"
    );
}

#[test]
fn midgard_test_parse_price() {
    assert_eq!(midgard::parse_price("5,00 kr"), Some(500));
    assert_eq!(midgard::parse_price("Vanlig pris 5,00 kr"), Some(500));
    assert_eq!(midgard::parse_price("1.899,00 kr"), Some(189900));
    assert_eq!(midgard::parse_price("  15,50 kr  "), Some(1550));
    assert_eq!(midgard::parse_price("0,50"), Some(50));
    assert_eq!(midgard::parse_price("abc"), None);
    assert_eq!(midgard::parse_price("Utsolgt"), None);
}

#[test]
fn midgard_test_parse_search_results() {
    let html = r#"<div class="product grid__item medium-up--one-third small--one-half">
            <div class="product__title product__title--card text-center">
                <a href="/products/tdm-0159-c-snakeskin-veil">TDM 0159 C: Snakeskin Veil</a>
            </div>
            <div class="product__prices text-center">
                <span class="product__price">
                    <span class="visually-hidden">Vanlig pris</span>
                    5,00 kr
                </span>
            </div>
        </div>"#;

    let products = midgard::parse_search_results(html).unwrap();
    assert_eq!(products.len(), 1);
    assert_eq!(products[0].name, "TDM 0159 C: Snakeskin Veil");
    assert_eq!(products[0].price, 500);
    assert!(products[0].in_stock);
    assert_eq!(
        products[0].url,
        "https://midgardgames.no/products/tdm-0159-c-snakeskin-veil"
    );
}

#[test]
fn test_parse_search_results_sold_out_class() {
    let html = r#"<div class="product grid__item sold-out">
            <div class="product__title"><a href="/products/test">Test Card</a></div>
            <span class="product__price">Utsolgt</span>
        </div>"#;

    let products = midgard::parse_search_results(html).unwrap();
    // sold-out class skips the card entirely
    assert_eq!(products.len(), 0);
}

#[test]
fn test_parse_search_results_price_utsolgt() {
    let html = r#"<div class="product grid__item">
            <div class="product__title"><a href="/products/test">Test Card</a></div>
            <span class="product__price">Utsolgt</span>
        </div>"#;

    let products = midgard::parse_search_results(html).unwrap();
    // Price saying "Utsolgt" skips the card
    assert_eq!(products.len(), 0);
}

#[test]
fn test_strip_enkeltkort() {
    assert_eq!(
        strip_enkeltkort("Snakeskin Veil (Enkeltkort)"),
        "Snakeskin Veil"
    );
    assert_eq!(
        strip_enkeltkort("Snakeskin Veil (enkeltkort)"),
        "Snakeskin Veil"
    );
    assert_eq!(strip_enkeltkort("Snakeskin Veil"), "Snakeskin Veil");
}

#[test]
fn outland_test_names_match() {
    assert!(outland::names_match("Snakeskin Veil", "Snakeskin Veil (Enkeltkort)"));
    assert!(outland::names_match("snakeskin veil", "Snakeskin Veil (Enkeltkort)"));
    assert!(outland::names_match("Snakeskin Veil", "Snakeskin Veil"));
    assert!(!outland::names_match("Snakeskin", "Snakeskin Veil (Enkeltkort)"));
    assert!(!outland::names_match("Other Card", "Snakeskin Veil (Enkeltkort)"));
}

#[test]
fn outland_test_store_name() {
    let store = Outland::new();
    assert_eq!(store.name(), "outland.no");
}

#[test]
fn pokeboks_test_parse_price() {
    assert_eq!(pokeboks::parse_price("2,99 kr"), Some(299));
    assert_eq!(pokeboks::parse_price("2,99&nbsp;kr"), Some(299));
    assert_eq!(pokeboks::parse_price("  15,00 kr  "), Some(1500));
    assert_eq!(pokeboks::parse_price("0,50"), Some(50));
    assert_eq!(pokeboks::parse_price("abc"), None);
}

#[test]
fn test_parse_search_html() {
    let html = r#"<div data-elementor-type="loop-item" data-elementor-id="2000" class="elementor elementor-2000 e-loop-item e-loop-item-61001 post-61001 product type-product status-publish has-post-thumbnail product_cat-kaldheim first instock taxable shipping-taxable purchasable product-type-simple">
            <a class="elementor-element elementor-element-fb7d3f8 e-con-full e-flex e-con e-parent" href="https://pokeboks.no/produkt/mtg-khm-194-normal-en/">
                <h4 class="elementor-heading-title elementor-size-default">Snakeskin Veil #194 — Kaldheim</h4>
                <span class="woocommerce-Price-amount amount"><bdi>2,99&nbsp;<span class="woocommerce-Price-currencySymbol">kr</span></bdi></span>
            </a>
        </div>"#;

    let products = parse_search_html(html).unwrap();
    assert_eq!(products.len(), 1);
    assert_eq!(products[0].name, "Snakeskin Veil #194 — Kaldheim");
    assert_eq!(products[0].price, 299);
    assert!(products[0].in_stock);
    assert_eq!(
        products[0].url,
        "https://pokeboks.no/produkt/mtg-khm-194-normal-en/"
    );
}

#[test]
fn test_parse_search_html_out_of_stock() {
    let html = r#"<div data-elementor-type="loop-item" class="product outofstock">
            <a href="https://pokeboks.no/produkt/test/">
                <h4 class="elementor-heading-title">Test Card #1 — Set</h4>
                <span class="woocommerce-Price-amount"><bdi>10,00 kr</bdi></span>
            </a>
        </div>"#;

    let products = parse_search_html(html).unwrap();
    assert_eq!(products.len(), 1);
    assert!(!products[0].in_stock);
}

#[test]
fn test_wrong_card_redirect() {
    // h1 mismatch should bail
    let html = r#"<html><body><h1>Wrong Card</h1></body></html>"#;
    match parse_card_page("Lightning Bolt", html) {
        Err(CardPageError::HeadingMismatch(heading_text)) => {
            assert!(!title_contains("Lightning Bolt", &heading_text));
            assert_eq!(heading_text, "Wrong Card");
        }
        _ => panic!("the page is another card's"),
    }
}

fn product(name: &str, price: u32, url: &str, in_stock: bool) -> SearchProduct {
    SearchProduct {
        name: name.to_string(),
        price,
        url: url.to_string(),
        in_stock,
    }
}

const OFFER: &str = r#"<div class="article-row">
    <span class="seller-name"><a href="/en/Magic/Users/Amy"> Amy </a></span>
    <div class="col-offer"><span class="color-primary fw-bold">1,50 €</span>
    <span class="item-count">4</span></div></div>"#;

#[test]
fn the_keys_of_the_stores() {
    assert_eq!(Outland::new().cache_keys(), vec!["outland.no".to_string()]);
    let market = CardMarket::new(false);
    assert_eq!(
        market.cache_keys(),
        vec![
            "cardmarket.com".to_string(),
            "cardmarket-int.com".to_string(),
            "cardmarket-int-private.com".to_string()
        ]
    );
    assert_eq!(market.name(), "cardmarket.com");
    assert_eq!(market.timeout_secs(), 30);
}

#[test]
fn search_addresses() {
    assert_eq!(
        adamstuen::search_url("Opal Palace"),
        format!("{}?route=product/search&search=Opal%20Palace", adamstuen::SEARCH_URL)
    );
    assert_eq!(
        korthaien::search_url("Opal Palace"),
        format!("{}?keywords=Opal%20Palace", korthaien::SEARCH_URL)
    );
    assert!(norwegian_url("Opt").ends_with("/Opt?sellerCountry=24&language=1"));
    assert!(professional_url("Opt").ends_with("/Opt?sellerType=1,2&language=1"));
    assert!(private_url("Opt").ends_with("/Opt?sellerType=0&language=1"));
    assert_eq!(
        make_cardmarket_offer_url("/u", "A B"),
        "/u/Offers/Singles?name=A%20B&sortBy=name_asc"
    );
}

#[test]
fn a_price_that_is_too_large_is_an_error() {
    let html = r#"<article data-stock-quantity="6" class="product-thumb-info"><a class="pb_title" href="/x">Opt</a>
        <p class="text-xl font-bold">4294967295,-</p></article>"#;
    assert!(matches!(
        korthaien::parse_search_results(html),
        Err(ScrapeError::PriceTooLarge)
    ));
}

#[test]
fn stores_choose_their_results() {
    let found = vec![
        product("Shock", 1, "/s", true),
        product("Opt (foil)", 100, "/f", true),
        product("Opt", 300, "/o", true),
        product("Opt", 200, "/sold", false),
    ];
    let chosen = korthaien::choose_results("opt", &found);
    assert_eq!(chosen.len(), 1);
    assert_eq!(chosen[0].url, "/o");
    let chosen = adamstuen::choose_results("opt", &found);
    assert_eq!((chosen[0].price, chosen[0].store_name.as_str()), (100, "adamstuenretro.no"));
    let chosen = collectible::choose_results("opt", &found);
    assert_eq!(chosen[0].url, "/f");
    assert_eq!(pokeboks::choose_results("opt", &found).len(), 2);
    let chosen = midgard::choose_results("opt", &found, &vec![true, false, true, true]);
    assert_eq!(chosen.len(), 1);
    assert_eq!(chosen[0].url, "/o");
    assert_eq!(korthaien::choose_results("Bog", &found).len(), 0);
    let items = vec![
        ProductItem { url_key: "k".to_string(), name: "Opt (Enkeltkort)".to_string(), price: 5 },
        ProductItem { url_key: "l".to_string(), name: "Opt".to_string(), price: 4 },
    ];
    let chosen = outland::choose_results("Opt", &items);
    assert_eq!(chosen.len(), 1);
    assert_eq!(chosen[0].price, 5);
    assert!(chosen[0].url.ends_with("/k"));
}

#[test]
fn magic_pages_name_their_maker() {
    assert!(midgard::is_magic_page("<p>Wizards of the Coast</p>"));
    assert!(!midgard::is_magic_page("<p>Nintendo</p>"));
}

#[test]
fn a_product_page_has_a_price_and_a_title() {
    let html = r#"<h1 class="product-title"> Opt </h1><p class="price">
        <span class="woocommerce-Price-amount amount"><bdi>3,90 kr</bdi></span></p>"#;
    assert_eq!(collectible::product_details(html), Ok((390, "Opt".to_string())));
    assert!(collectible::product_details("<p>nothing</p>").is_err());
    assert_eq!(collectible::redirect_results("Opt", "/o", 390, "Opt foil").len(), 1);
    assert_eq!(collectible::redirect_results("Shock", "/o", 390, "Opt").len(), 0);
    assert!(collectible::is_redirect(302));
    assert!(!collectible::is_redirect(200));
}

#[test]
fn the_byte_order_mark_goes() {
    assert_eq!(pokeboks::strip_mark("\u{feff}{}"), "{}");
    assert_eq!(pokeboks::strip_mark("{}"), "{}");
    assert!(pokeboks::is_last_page("  "));
}

#[test]
fn an_ad_names_the_card_and_its_seller() {
    let html = r#"<section data-testid="description"><div class="whitespace-pre-wrap">
        Selger  Opt <b>og Shock</b></div></section>
        <a href="/profile/ads?userId=1"> Kari </a>"#;
    let detail = ad_detail(html).unwrap();
    assert_eq!(detail.description, "Selger  Opt og Shock");
    assert_eq!(detail.seller_name, "Kari");
    let doc = SearchDoc { id: "7".to_string(), canonical_url: None, amount: Some(50) };
    let result = ad_result("opt", &doc, &detail).unwrap();
    assert_eq!(result.store_name, "finn.no: Kari");
    assert_eq!(result.price, 5000);
    assert_eq!(result.url, "https://www.finn.no/recommerce/forsale/item/7");
    let pokemon = AdDetail {
        description: "Opt og POKEMON".to_string(),
        seller_name: "Kari".to_string(),
    };
    assert!(ad_result("opt", &doc, &pokemon).is_none());
    assert!(matches!(ad_detail("<p></p>"), Err(AdError::NoDescription)));
}

#[test]
fn structured_data_names_the_seller() {
    let plain = r#"<script type="application/ld+json">{"seller":{"name":"Ola"}}</script>
        <a href="/profile/1">Kari</a>"#;
    assert_eq!(finn::extract_seller_name(plain), "Ola");
    let graph = r#"<script type="application/ld+json">broken</script>
        <script type="application/ld+json">{"@graph":[{"x":1},{"seller":{"name":"Per"}}]}</script>"#;
    assert_eq!(finn::extract_seller_name(graph), "Per");
    assert_eq!(finn::extract_seller_name("<a href='/user/1'>Siv</a>"), "Siv");
    assert_eq!(finn::extract_seller_name("<p></p>"), "unknown");
    assert_eq!(finn::next_page(1, Some(2)), Some(2));
    assert_eq!(finn::next_page(2, Some(2)), None);
}

#[test]
fn offers_on_a_card_page() {
    let html = format!("<h1>Opt</h1>{OFFER}");
    let offers = match parse_card_page("Opt", &html) {
        Ok(offers) => offers,
        Err(_) => panic!("the page is the card's"),
    };
    assert_eq!(offers.len(), 1);
    assert_eq!(offers[0].name, "Amy");
    assert_eq!(offers[0].price_eur_cents, 150);
    assert_eq!(offers[0].item_count, 4);
    assert_eq!(offers[0].url, "https://www.cardmarket.com/en/Magic/Users/Amy");
    let home = sellers_to_results(&offers, "Opt", false, false);
    assert_eq!(home[0].store_name, "cardmarket.com: Amy");
    assert_eq!(home[0].price, 1650);
    let abroad = sellers_to_results(&offers, "Opt", true, false);
    assert_eq!(abroad[0].store_name, "cardmarket-int.com: Amy");
    assert_eq!(abroad[0].price, 2063);
    assert!(matches!(parse_card_page("Opt", "<p></p>"), Err(CardPageError::NoHeading)));
    assert!(matches!(
        parse_card_page("Opt", "<h1> </h1>"),
        Err(CardPageError::EmptyHeading)
    ));
    let dear = html.replace("1,50", "99999999,00");
    assert!(matches!(
        parse_card_page("Opt", &dear),
        Err(CardPageError::PriceTooLarge)
    ));
    assert!(try_extract_sellers("<p></p>").unwrap().is_empty());
}

#[test]
fn hidden_fields_of_a_page() {
    let html = r#"<input name="__cmtkn" value="abc"><input name="idMetacard" value="42">"#;
    assert_eq!(extract_csrf(html), Some("abc".to_string()));
    assert_eq!(extract_metacard_id(html), Some(42));
    assert_eq!(extract_csrf("<p></p>"), None);
    assert_eq!(extract_metacard_id(r#"<input name="idMetacard" value="x">"#), None);
}

#[test]
fn more_offers_come_in_base64() {
    assert_eq!(extract_ajax_rows("<a><rows>x</rows></a>"), Some("x".to_string()));
    assert_eq!(decode_page("<rows>T3B0</rows>"), Ok("Opt".to_string()));
    assert_eq!(decode_page("<p></p>"), Ok(String::new()));
    assert_eq!(decode_page("<rows>?</rows>"), Err(LoadMoreError::BadBase64));
    assert_eq!(decode_page("<rows>/w==</rows>"), Err(LoadMoreError::BadUtf8));
    let row = "PGRpdiBjbGFzcz0iYXJ0aWNsZS1yb3ciPjxzcGFuIGNsYXNzPSJzZWxsZXItbmFtZSI+PGEgaHJlZj0iL0IiPkI8L2E+PC9zcGFuPjxkaXYgY2xhc3M9ImNvbC1vZmZlciI+PHNwYW4gY2xhc3M9ImNvbG9yLXByaW1hcnkgZnctYm9sZCI+MCwwMiBFVVI8L3NwYW4+PC9kaXY+PC9kaXY+";
    let offers = match load_more_sellers(&format!("<rows>{row}</rows>")) {
        Ok(offers) => offers,
        Err(_) => panic!("the response is well formed"),
    };
    assert_eq!(offers.len(), 1);
    assert_eq!((offers[0].price_eur_cents, offers[0].item_count), (2, 1));
    assert_eq!(next_load_more(0, 50), Some(1));
    assert_eq!(next_load_more(9, 50), None);
    assert_eq!(next_load_more(0, 0), None);
}

#[test]
fn rescued_sellers_become_results() {
    let raw = vec![
        RescuedSeller {
            n: "Amy".to_string(),
            p: "1,00 €".to_string(),
            c: 1,
            u: "/a".to_string(),
        },
        RescuedSeller {
            n: "Itaca".to_string(),
            p: "1,00 €".to_string(),
            c: 1,
            u: "/i".to_string(),
        },
    ];
    assert!(is_blacklisted("Itaca"));
    let results = results_from_rescue(&raw, "Opt", "cardmarket-int-private.com").unwrap();
    assert_eq!(results.len(), 1);
    assert_eq!(results[0].store_name, "cardmarket-int-private.com: Amy");
    assert!(matches!(
        results_from_rescue(&raw, "Opt", "elsewhere"),
        Err(RescueError::UnknownSubKey)
    ));
    let dear = vec![RescuedSeller {
        n: "Amy".to_string(),
        p: "99999999,00".to_string(),
        c: 1,
        u: "/a".to_string(),
    }];
    assert!(matches!(
        results_from_rescue(&dear, "Opt", "cardmarket.com"),
        Err(RescueError::PriceTooLarge)
    ));
}

#[test]
fn a_batch_is_given_up_after_three_blocks() {
    let mut market = CardMarket::new(false);
    let challenge = vec!["outer".to_string(), "Cloudflare challenge page".to_string()];
    for _ in 0..3 {
        assert!(!is_blocked(&market));
        assert!(matches!(
            market.after_failure(&challenge, 0),
            FailureAction::Challenge
        ));
    }
    assert!(is_blocked(&market));
    assert!(matches!(market.start_sub("Opt", "cardmarket.com"), SubStart::Blocked));
    market.set_semi_manual(true);
    assert!(!is_blocked(&market));
    assert!(matches!(
        market.after_failure(&challenge, 0),
        FailureAction::RescuePending
    ));
    market.set_semi_manual(false);
    market.teardown();
    assert!(!is_blocked(&market));
}

#[test]
fn a_card_is_fetched_once_for_all_endpoints() {
    let mut market = CardMarket::new(false);
    assert!(matches!(market.start_sub("Opt", "cardmarket.com"), SubStart::Fetch));
    let results = CardResults {
        norwegian: Vec::new(),
        int_powerseller: Vec::new(),
        int_private: Vec::new(),
    };
    assert!(market.end_fetch("Opt", "cardmarket.com", results).is_some());
    assert!(matches!(market.start_sub("Bog", "cardmarket.com"), SubStart::Fetch));
    let other = CardResults {
        norwegian: Vec::new(),
        int_powerseller: Vec::new(),
        int_private: Vec::new(),
    };
    assert!(market.end_fetch("Bog", "cardmarket.com", other).is_some());
    assert!(matches!(
        market.start_sub("Opt", "cardmarket-int.com"),
        SubStart::Known(_)
    ));
    assert!(matches!(market.start_sub("Opt", "x"), SubStart::UnknownSubKey));
    let dead = vec!["The connection is closed".to_string()];
    assert!(matches!(market.after_failure(&dead, 0), FailureAction::Retry));
    assert!(matches!(market.start_sub("Opt", "cardmarket.com"), SubStart::Fetch));
    assert!(matches!(
        market.after_failure(&dead, 1),
        FailureAction::Report(m) if m == "The connection is closed"
    ));
}

#[test]
fn blocked_pages_wait_for_a_user() {
    let mut market = CardMarket::new(false);
    let url = private_url("Opt");
    market.queue_rescue(&url);
    let items = market.drain_rescue_queue();
    assert_eq!(items.len(), 1);
    assert_eq!(items[0].card_name, "Opt");
    assert_eq!(items[0].sub_key, "cardmarket-int-private.com");
    assert_eq!(items[0].url, url);
    assert_eq!(market.drain_rescue_queue().len(), 0);
    assert_eq!(rescue_item(&norwegian_url("Opt")).sub_key, "cardmarket.com");
    assert!(is_challenge("<script src=challenges.cloudflare.com>"));
    assert!(is_browser_dead("No such tab"));
    assert!(!is_browser_dead("timeout"));
}
