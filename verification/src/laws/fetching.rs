//! What is asked of the stores and of the name lookup, and in what order.

use crate::cache::Tables;
use crate::cache::names::fresh_name;
use crate::html::{concat, document_elements, inner_text, Elem};
use crate::json::{json_text, json_texts};
use crate::percent::url_encoded;
use crate::scryfall::{
    autocomplete_url, first_suggestion, kept_names, kept_pairs, name_to_cache, once_resolved,
    resolved_as, unknown_names, Resolution, Resolved,
};
use crate::search::fetch_delay;
use crate::server::requests::{
    check_cards, check_strategy, check_wizard, default_strategy, RequestError, WizardRequest,
};
use crate::shipping::{add_vat, eur_to_nok, strip_vat};
use crate::stores::{adamstuen, collectible, finn, korthaien, midgard, outland};
use crate::stores::cardmarket::{
    card_address, next_load_more, norwegian_url, private_url, professional_url,
};
use crate::stores::collectible::{details, redirects, DetailError};
use crate::stores::finn::{
    all_nodes, description_of, first_text, linked_name, page_address, profile_name, seller_name,
    spaced, structured_seller, structured_sellers, trimmed_nodes,
};
use crate::text::{byte_len, decimal, replace, texts, trim};
use crate::wizard::model::Strategy;
use vstd::prelude::*;

verus! {

/// Requests to a store are at least 200 ms and less than 500 ms apart.
pub proof fn law_delay(random: u64, ms: u64)
    requires
        call_ensures(fetch_delay, (random,), ms),
    ensures
        200 <= ms < 500,
        random < 300 ==> ms == 200 + random,
{
}

/// The pages of a finn.no search are asked for one after the other up to the last,
/// and only the first where the last is not known.
pub proof fn law_finn_pages(page: u32, last: Option<u32>, next: Option<u32>)
    requires
        call_ensures(finn::next_page, (page, last), next),
    ensures
        next matches Some(n) ==> n == page + 1 && (last matches Some(l) ==> n <= l),
        last matches Some(l) && page < l ==> next is Some,
        last is None && page >= 1 ==> next is None,
{
}

/// The pages of an outland.no search are asked for one after the other up to the
/// last.
pub proof fn law_outland_pages(page: u32, last: u32, next: Option<u32>)
    requires
        call_ensures(outland::next_page, (page, last), next),
    ensures
        next is Some <==> page < last,
        next matches Some(n) ==> n == page + 1,
{
}

/// An outland.no search asks for 48 products a page, in stock and of the card
/// category.
pub proof fn law_outland_request(term: &str, page: u32, v: outland::ProductListVariables)
    requires
        call_ensures(outland::build_request, (term, page), v),
    ensures
        v.page_size == 48,
        v.current_page == page,
        v.category_uid@ == "MTI1MA=="@,
        v.in_stock@ == "1"@,
        v.relevance@ == "DESC"@,
        v.search@ == term@,
{
}

/// Further offers of a card are loaded while a page brings new ones, ten pages at
/// most.
pub proof fn law_load_more(page: u32, new_offers: usize, next: Option<u32>)
    requires
        call_ensures(next_load_more, (page, new_offers), next),
    ensures
        next is Some <==> new_offers > 0 && page < 9,
        next matches Some(n) ==> n == page + 1 && n < 10,
{
}

/// The pages of a card by kind of seller.
pub proof fn law_card_pages(slug: &str, no: String, pro: String, private: String)
    requires
        call_ensures(norwegian_url, (slug,), no),
        call_ensures(professional_url, (slug,), pro),
        call_ensures(private_url, (slug,), private),
    ensures
        no@ == "https://www.cardmarket.com/en/Magic/Cards/"@ + slug@
            + "?sellerCountry=24&language=1"@,
        pro@ == "https://www.cardmarket.com/en/Magic/Cards/"@ + slug@
            + "?sellerType=1,2&language=1"@,
        private@ == "https://www.cardmarket.com/en/Magic/Cards/"@ + slug@
            + "?sellerType=0&language=1"@,
{
    reveal_strlit("https://www.cardmarket.com/en/Magic/Cards");
    reveal_strlit("https://www.cardmarket.com/en/Magic/Cards/");
    reveal_strlit("/");
    reveal_strlit("?");
    reveal_strlit("sellerCountry=24");
    reveal_strlit("sellerType=1,2");
    reveal_strlit("sellerType=0");
    reveal_strlit("&language=1");
    reveal_strlit("?sellerCountry=24&language=1");
    reveal_strlit("?sellerType=1,2&language=1");
    reveal_strlit("?sellerType=0&language=1");
    assert("?"@ + "sellerCountry=24"@ + "&language=1"@ =~= "?sellerCountry=24&language=1"@);
    assert("?"@ + "sellerType=1,2"@ + "&language=1"@ =~= "?sellerType=1,2&language=1"@);
    assert("?"@ + "sellerType=0"@ + "&language=1"@ =~= "?sellerType=0&language=1"@);
    assert("https://www.cardmarket.com/en/Magic/Cards"@ + "/"@
        =~= "https://www.cardmarket.com/en/Magic/Cards/"@);
    lemma_address(slug@, "sellerCountry=24"@);
    lemma_address(slug@, "sellerType=1,2"@);
    lemma_address(slug@, "sellerType=0"@);
}

proof fn lemma_address(slug: Seq<char>, filter: Seq<char>)
    ensures
        card_address(slug, filter) == ("https://www.cardmarket.com/en/Magic/Cards"@ + "/"@) + slug + (
        "?"@ + filter + "&language=1"@),
{
    assert(card_address(slug, filter) =~= ("https://www.cardmarket.com/en/Magic/Cards"@ + "/"@)
        + slug + ("?"@ + filter + "&language=1"@));
}

/// The addresses of searches: the name of the card goes into the query with its
/// spaces encoded.
pub proof fn law_search_addresses(
    card: &str,
    page: u32,
    adamstuen_url: String,
    collectible_url: String,
    korthaien_url: String,
    midgard_url: String,
    finn_url: String,
    lookup_url: String,
)
    requires
        call_ensures(adamstuen::search_url, (card,), adamstuen_url),
        call_ensures(collectible::search_url, (card,), collectible_url),
        call_ensures(korthaien::search_url, (card,), korthaien_url),
        call_ensures(midgard::search_url, (card,), midgard_url),
        call_ensures(finn::search_url, (card, page), finn_url),
        call_ensures(autocomplete_url, (card,), lookup_url),
    ensures
        adamstuen_url@ == "https://adamstuenretro.no/index.php?route=product/search&search="@
            + replace(card@, " "@, "%20"@),
        collectible_url@ == "https://collectible.no/?s="@ + replace(card@, " "@, "+"@)
            + "&post_type=product&stock_status=instock"@,
        korthaien_url@ == "https://www.korthaien.no/search_result?keywords="@ + replace(
            card@,
            " "@,
            "%20"@,
        ),
        midgard_url@ == "https://midgardgames.no/search?q="@ + replace(card@, " "@, "+"@),
        finn_url@
            == "https://www.finn.no/recommerce/forsale/search/api/search/SEARCH_ID_BAP_COMMON?q="@
            + replace(card@, " "@, "%20"@)
            + "&category=0.86&product_category=2.86.285.396&page="@ + decimal(page as nat),
        lookup_url@ == "https://api.scryfall.com/cards/autocomplete?q="@ + url_encoded(card@),
{
    reveal_strlit("https://adamstuenretro.no/index.php");
    reveal_strlit("?route=product/search&search=");
    reveal_strlit("https://adamstuenretro.no/index.php?route=product/search&search=");
    assert("https://adamstuenretro.no/index.php"@ + "?route=product/search&search="@
        =~= "https://adamstuenretro.no/index.php?route=product/search&search="@);
    reveal_strlit("https://collectible.no/");
    reveal_strlit("?s=");
    reveal_strlit("https://collectible.no/?s=");
    assert("https://collectible.no/"@ + "?s="@ =~= "https://collectible.no/?s="@);
    reveal_strlit("https://www.korthaien.no/search_result");
    reveal_strlit("?keywords=");
    reveal_strlit("https://www.korthaien.no/search_result?keywords=");
    assert("https://www.korthaien.no/search_result"@ + "?keywords="@
        =~= "https://www.korthaien.no/search_result?keywords="@);
    reveal_strlit("https://midgardgames.no/search");
    reveal_strlit("?q=");
    reveal_strlit("https://midgardgames.no/search?q=");
    assert("https://midgardgames.no/search"@ + "?q="@ =~= "https://midgardgames.no/search?q="@);
    reveal_strlit("https://api.scryfall.com/cards/autocomplete");
    reveal_strlit("https://api.scryfall.com/cards/autocomplete?q=");
    assert("https://api.scryfall.com/cards/autocomplete"@ + "?q="@
        =~= "https://api.scryfall.com/cards/autocomplete?q="@);
    lemma_finn_address(card@, page);
}

proof fn lemma_finn_address(card: Seq<char>, page: u32)
    ensures
        page_address(card, page)
            == "https://www.finn.no/recommerce/forsale/search/api/search/SEARCH_ID_BAP_COMMON?q="@
            + replace(card, " "@, "%20"@)
            + "&category=0.86&product_category=2.86.285.396&page="@ + decimal(page as nat),
{
    reveal_strlit("https://www.finn.no/recommerce/forsale/search/api/search/SEARCH_ID_BAP_COMMON");
    reveal_strlit("?q=");
    reveal_strlit(
        "https://www.finn.no/recommerce/forsale/search/api/search/SEARCH_ID_BAP_COMMON?q=",
    );
    reveal_strlit("&category=");
    reveal_strlit("0.86");
    reveal_strlit("&product_category=");
    reveal_strlit("2.86.285.396");
    reveal_strlit("&page=");
    reveal_strlit("&category=0.86&product_category=2.86.285.396&page=");
    assert("https://www.finn.no/recommerce/forsale/search/api/search/SEARCH_ID_BAP_COMMON"@ + "?q="@
        =~= "https://www.finn.no/recommerce/forsale/search/api/search/SEARCH_ID_BAP_COMMON?q="@);
    let middle = "&category="@ + "0.86"@ + "&product_category="@ + "2.86.285.396"@ + "&page="@;
    assert(middle =~= "&category=0.86&product_category=2.86.285.396&page="@);
    let query = replace(card, " "@, "%20"@);
    let start =
        "https://www.finn.no/recommerce/forsale/search/api/search/SEARCH_ID_BAP_COMMON"@ + "?q="@;
    assert(page_address(card, page) =~= start + query + middle + decimal(page as nat));
}

/// A name resolves to the first suggestion, and is unknown without any; only a name
/// that was found is cached.
pub proof fn law_first_suggestion(
    suggestions: &Vec<String>,
    found: Resolution,
    cached: Option<String>,
)
    requires
        call_ensures(first_suggestion, (suggestions,), found),
        call_ensures(name_to_cache, (&found,), cached),
    ensures
        suggestions@.len() > 0 ==> found@ == Resolved::Found(suggestions@[0]@) && (
        cached matches Some(c) && c@ == suggestions@[0]@),
        suggestions@.len() == 0 ==> found@ is Unknown && cached is None,
{
}

/// Name by name: a name goes on as what it resolves to, as it is where the lookup
/// failed, and is set aside where no card goes by it.
pub proof fn law_resolved_names(
    names: Seq<Seq<char>>,
    rs: Seq<Resolved>,
    name: Seq<char>,
    r: Resolved,
)
    requires
        names.len() == rs.len(),
    ensures
        kept_names(Seq::empty(), Seq::empty()).len() == 0,
        unknown_names(Seq::empty(), Seq::empty()).len() == 0,
        ({
            let kept = kept_names(names, rs);
            let unknown = unknown_names(names, rs);
            let more = kept_names(names.push(name), rs.push(r));
            let aside = unknown_names(names.push(name), rs.push(r));
            match r {
                Resolved::Found(n) => more == kept.push(n) && aside == unknown,
                Resolved::Failed => more == kept.push(name) && aside == unknown,
                Resolved::Unknown => more == kept && aside == unknown.push(name),
            }
        }),
{
    assert(names.push(name).drop_last() =~= names);
    assert(rs.push(r).drop_last() =~= rs);
    let f = |p: (Seq<char>, Seq<char>)| p.1;
    let pairs = kept_pairs(names, rs);
    match r {
        Resolved::Found(n) => {
            assert(pairs.push((name, n)).map_values(f) =~= pairs.map_values(f).push(n));
        },
        Resolved::Failed => {
            assert(pairs.push((name, name)).map_values(f) =~= pairs.map_values(f).push(name));
        },
        Resolved::Unknown => {},
    }
}

/// A fresh cached name stands in for a lookup, which then changes nothing.
pub proof fn law_cached_names_stand_in(t: Tables, name: Seq<char>, answer: Resolved, now: i64)
    ensures
        fresh_name(t, name, now) matches Some(n) ==> resolved_as(t, name, answer, now)
            == Resolved::Found(n) && once_resolved(t, name, answer, now) == t,
        fresh_name(t, name, now) is None ==> resolved_as(t, name, answer, now) == answer,
        !(answer is Found) ==> once_resolved(t, name, answer, now) == t,
{
}

/// One euro is eleven kroner.
pub proof fn law_euros_in_kroner(cents: u32, oere: u32)
    requires
        call_ensures(eur_to_nok, (cents,), oere),
    ensures
        cents <= 390451572 ==> oere == 11 * cents,
        cents > 390451572 ==> oere == u32::MAX,
{
}

/// VAT is a quarter of the price without it, rounded to the nearest oere.
pub proof fn law_vat(price: u32, with: u32, without: u32)
    requires
        call_ensures(add_vat, (price,), with),
        call_ensures(strip_vat, (price,), without),
    ensures
        price <= 3435973836 ==> 5 * price - 2 <= 4 * with <= 5 * price + 2,
        4 * price - 2 <= 5 * without <= 4 * price + 2,
{
    let x = price * 100 + 62;
    let w = x / 125;
    assert(125 * w <= x < 125 * w + 125);
    assert(without == w);
}

/// A request has 1 to 100 different cards, and else is refused for their number.
pub proof fn law_checked_cards(cards: &Vec<String>, checked: Result<Vec<String>, RequestError>)
    requires
        call_ensures(check_cards, (cards,), checked),
    ensures
        match checked {
            Ok(sorted) => 1 <= sorted@.len() <= 100,
            Err(RequestError::NoCards) => cards@.len() == 0,
            Err(RequestError::TooManyCards(n)) => n > 100,
            Err(_) => false,
        },
        cards@.len() == 0 ==> checked matches Err(RequestError::NoCards),
{
    if let Ok(sorted) = checked {
        assert(texts(sorted@).len() == sorted@.len());
        if cards@.len() == 0 {
            assert(texts(sorted@).contains(texts(sorted@)[0]));
            assert(texts(cards@).contains(texts(sorted@)[0]));
        }
    }
    if let Err(RequestError::TooManyCards(n)) = checked {
        let sorted = choose|sorted: Seq<Seq<char>>| #[trigger]
            crate::decklist::is_sorted_set(texts(cards@), sorted) && sorted.len() == n;
        if cards@.len() == 0 {
            assert(sorted.contains(sorted[0]));
            assert(texts(cards@).contains(sorted[0]));
        }
    }
}

/// A wizard request has a tolerance of at most 5, and is refused for it only above.
pub proof fn law_checked_tolerance(
    req: &WizardRequest,
    checked: Result<Vec<String>, RequestError>,
)
    requires
        call_ensures(check_wizard, (req,), checked),
    ensures
        checked is Ok ==> req.tolerance <= 5,
        checked matches Err(RequestError::ToleranceTooHigh(n)) ==> n == req.tolerance && n > 5,
        req.tolerance <= 5 ==> !(checked matches Err(RequestError::ToleranceTooHigh(_))),
{
}

/// The two strategies go by their names, and any other name is refused.
pub proof fn law_checked_strategies(
    name: &str,
    checked: Result<Strategy, RequestError>,
    default_name: String,
)
    requires
        call_ensures(check_strategy, (name,), checked),
        call_ensures(default_strategy, (), default_name),
    ensures
        name@ == "cheapest"@ ==> checked == Ok::<Strategy, RequestError>(Strategy::Cheapest),
        name@ == "simplest"@ ==> checked == Ok::<Strategy, RequestError>(Strategy::Simplest),
        name@ != "cheapest"@ && name@ != "simplest"@ ==> (checked matches Err(
            RequestError::UnknownStrategy(n),
        ) && n@ == name@),
        default_name@ == "cheapest"@,
{
    reveal_strlit("cheapest");
    reveal_strlit("simplest");
    assert("cheapest"@[0] == 'c' && "simplest"@[0] == 's');
}

/// The server is at fault only where it has no cache or its listings are out of
/// range; any other refusal is the request's.
pub proof fn law_status(e: &RequestError, code: u16)
    requires
        call_ensures(RequestError::status, (e,), code),
    ensures
        code == 500 <==> e is NoCache || e is OutOfRange,
        code == 400 <==> !(e is NoCache) && !(e is OutOfRange),
{
}

/// The description of an ad is made of its text nodes, trimmed, with a space
/// between those that hold text.
pub proof fn law_description(els: Seq<Elem>, el: Elem, nodes: Seq<Seq<char>>, node: Seq<char>)
    ensures
        all_nodes(Seq::empty()).len() == 0,
        all_nodes(els.push(el)) == all_nodes(els) + el.texts,
        trimmed_nodes(Seq::empty()).len() == 0,
        trim(node).len() == 0 ==> trimmed_nodes(nodes.push(node)) == trimmed_nodes(nodes),
        trim(node).len() > 0 ==> trimmed_nodes(nodes.push(node)) == trimmed_nodes(nodes).push(
            trim(node),
        ),
        spaced(seq![node]) == node,
        nodes.len() > 0 ==> spaced(nodes.push(node)) == spaced(nodes) + " "@ + node,
        description_of(els) is None <==> trimmed_nodes(all_nodes(els)).len() == 0,
        description_of(els) matches Some(text) ==> text == spaced(trimmed_nodes(all_nodes(els))),
{
    assert(els.push(el).drop_last() =~= els);
    assert(nodes.push(node).drop_last() =~= nodes);
}

/// The first text of a list is that of the first entry that has one.
pub proof fn law_first_text(v: Seq<Option<Seq<char>>>, from: int, k: int)
    requires
        0 <= from <= k < v.len(),
        forall|i: int| from <= i < k ==> #[trigger] v[i] is None,
        v[k] is Some,
    ensures
        first_text(v, from) == v[k],
    decreases k - from,
{
    if from < k {
        assert(v[from] is None);
        law_first_text(v, from + 1, k);
    }
}

/// A piece of structured data names the seller of its product, or else the first
/// one in its graph.
pub proof fn law_structured_seller(json: Seq<char>)
    ensures
        json_text(json, "seller"@, "name"@) is Some ==> structured_seller(json) == json_text(
            json,
            "seller"@,
            "name"@,
        ),
        json_text(json, "seller"@, "name"@) is None ==> (json_texts(
            json,
            "@graph"@,
            "seller"@,
            "name"@,
        ) matches Some(names) ==> structured_seller(json) == first_text(names, 0)),
{
}

/// The seller is named by the first script that names one.
pub proof fn law_first_script_with_a_seller(scripts: Seq<Elem>, from: int, k: int)
    requires
        0 <= from <= k < scripts.len(),
        forall|i: int|
            from <= i < k ==> structured_seller(concat((#[trigger] scripts[i]).texts)) is None,
        structured_seller(concat(scripts[k].texts)) is Some,
    ensures
        structured_sellers(scripts, from) == structured_seller(concat(scripts[k].texts)),
    decreases k - from,
{
    if from < k {
        assert(structured_seller(concat(scripts[from].texts)) is None);
        law_first_script_with_a_seller(scripts, from + 1, k);
    }
}

/// A link names the seller with a text of 1 to 79 bytes; the first such link counts.
pub proof fn law_first_link_with_a_name(links: Seq<Elem>, from: int, k: int)
    requires
        0 <= from <= k < links.len(),
        forall|i: int|
            from <= i < k ==> inner_text(#[trigger] links[i]).len() == 0 || byte_len(
                inner_text(links[i]),
            ) >= 80,
        inner_text(links[k]).len() > 0,
        byte_len(inner_text(links[k])) < 80,
    ensures
        linked_name(links, from) == Some(inner_text(links[k])),
    decreases k - from,
{
    if from < k {
        assert(inner_text(links[from]).len() == 0 || byte_len(inner_text(links[from])) >= 80);
        law_first_link_with_a_name(links, from + 1, k);
    }
}

/// The seller's name comes from the structured data, else from the profile links,
/// and is "unknown" else; it is never empty.
pub proof fn law_seller_of_an_ad(html: Seq<char>, scripts: Seq<Elem>)
    requires
        document_elements(html, "script[type='application/ld+json']"@, ""@) == Some(scripts),
    ensures
        structured_sellers(scripts, 0) matches Some(n) && n.len() > 0 ==> seller_name(html)
            == structured_sellers(scripts, 0)->0,
        structured_sellers(scripts, 0) is None ==> (profile_name(html, 0) matches Some(n)
            ==> seller_name(html) == n),
        structured_sellers(scripts, 0) is None && profile_name(html, 0) is None ==> seller_name(
            html,
        ) == "unknown"@,
{
}

/// A product page is read for its first price of the first kind that is one, else
/// of the second, and for its first heading.
pub proof fn law_product_pages(titles: Seq<Elem>, first: Seq<Elem>, second: Seq<Elem>, x: u32)
    ensures
        ({
            let text = crate::output::price_text(x as nat);
            let title = if titles.len() > 0 {
                inner_text(titles[0])
            } else {
                Seq::empty()
            };
            &&& first.len() > 0 && first[0].texts == seq![text] ==> details(titles, first, second)
                == Ok::<(u32, Seq<char>), DetailError>((x, title))
            &&& first.len() == 0 && second.len() > 0 && second[0].texts == seq![text] ==> details(
                titles,
                first,
                second,
            ) == Ok::<(u32, Seq<char>), DetailError>((x, title))
            &&& first.len() == 0 && second.len() == 0 ==> details(titles, first, second) == Err::<
                (u32, Seq<char>),
                DetailError,
            >(DetailError::NoPrice)
        }),
{
    let text = crate::output::price_text(x as nat);
    crate::laws::pages::lemma_concat_one(text);
    crate::stores::printed::law_collectible_reads_prices(x);
    assert(collectible::price_amount(text) == Some(x as nat));
}

/// A search is sent on to a product page by a redirect, of which there are five.
pub proof fn law_redirects(status: u16)
    ensures
        redirects(status) <==> seq![301u16, 302u16, 303u16, 307u16, 308u16].contains(status),
{
    let all = seq![301u16, 302u16, 303u16, 307u16, 308u16];
    assert(all[0] == 301 && all[1] == 302 && all[2] == 303 && all[3] == 307 && all[4] == 308);
}

} // verus!
