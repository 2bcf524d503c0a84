//! midgardgames.no

use crate::html::{
    attr_or_empty, attr_text, inner_text, page_rows, scrape_rows, trimmed_text, Query, Row, RowView,
};
use crate::stores::page::{
    cell, cell_at, product_listing, products_from_rows, read_rows, result_view, to_result,
    wanted_product, Raw, RawProduct, RowReader,
};
use crate::stores::price::{amount, find_amount, fits, opt_nat, priced, to_price, ScrapeError};
use crate::stores::{
    listings, products, title_contains, urlencode_plus, Listing, Product, SearchProduct, Store,
    StoreResult,
};
use crate::text::{
    begins, contains, from_first_digit, has, joined, lowercase, parse_number, parse_u32, replace,
    replaced, skip_to_digit, split_at_first, split_once, starts_with, to_chars, trim, trimmed,
};
use vstd::prelude::*;

verus! {

pub const SEARCH_URL: &'static str = "https://midgardgames.no/search";

pub const STORE_BASE_URL: &'static str = "https://midgardgames.no";

pub const STORE_NAME: &'static str = "midgardgames.no";

pub const TIMEOUT_SECS: u64 = 15;

pub struct Midgard;

impl Midgard {
    pub fn new() -> (store: Self)
        ensures
            store.store_name() == STORE_NAME@,
            store.timeout() == TIMEOUT_SECS,
    {
        Midgard
    }
}

impl Store for Midgard {
    open spec fn store_name(&self) -> Seq<char> {
        STORE_NAME@
    }

    open spec fn timeout(&self) -> u64 {
        TIMEOUT_SECS
    }

    open spec fn keys(&self) -> Seq<Seq<char>> {
        seq![STORE_NAME@]
    }

    fn name(&self) -> &str {
        STORE_NAME
    }

    fn timeout_secs(&self) -> u64 {
        TIMEOUT_SECS
    }

    fn cache_keys(&self) -> Vec<String> {
        crate::stores::one_key(STORE_NAME)
    }
}

/// The address of a search.
pub fn search_url(card_name: &str) -> (url: String)
    ensures
        url@ == SEARCH_URL@ + "?q="@ + replace(card_name@, " "@, "+"@),
{
    joined(&joined(SEARCH_URL, "?q="), &urlencode_plus(card_name))
}

/// The amount in a text such as "5,00 kr", "Vanlig pris 5,00 kr" or "1.899,00 kr".
pub open spec fn price_amount(raw: Seq<char>) -> Option<nat> {
    match from_first_digit(trim(raw)) {
        Some(number) => {
            let cleaned = trim(
                replace(replace(replace(number, "kr"@, ""@), "NOK"@, ""@), " "@, ""@),
            );
            match split_once(cleaned, ',') {
                Some((whole, frac)) => amount(
                    parse_number(replace(whole, "."@, ""@)),
                    parse_number(frac),
                ),
                None => None,
            }
        },
        None => None,
    }
}

fn find_price(raw: &str) -> (n: Option<u64>)
    ensures
        opt_nat(n) == price_amount(raw@),
{
    proof {
        reveal_strlit("kr");
        reveal_strlit("NOK");
        reveal_strlit(" ");
        reveal_strlit(".");
    }
    let nothing = to_chars("");
    match skip_to_digit(&trimmed(&to_chars(raw))) {
        Some(number) => {
            let v = replaced(&number, &to_chars("kr"), &nothing);
            let v = replaced(&v, &to_chars("NOK"), &nothing);
            let v = trimmed(&replaced(&v, &to_chars(" "), &nothing));
            match split_at_first(&v, ',') {
                Some((whole, frac)) => {
                    let plain = replaced(&whole, &to_chars("."), &nothing);
                    find_amount(parse_u32(&plain), parse_u32(&frac))
                },
                None => None,
            }
        },
        None => None,
    }
}

/// A price text such as "5,00 kr" in oere; text before the number is passed over.
pub fn parse_price(raw: &str) -> (price: Option<u32>)
    requires
        fits(price_amount(raw@)),
    ensures
        price == priced(price_amount(raw@)),
{
    to_price(find_price(raw))
}

/// The cells of a product that are read.
pub open spec fn row_queries() -> Seq<Query> {
    seq![
        Query { css: "div.product__title a", attr: "href" },
        Query { css: "span.product__price", attr: "" },
    ]
}

fn queries() -> (q: Vec<Query>)
    ensures
        q@ == row_queries(),
{
    let q = vec![
        Query { css: "div.product__title a", attr: "href" },
        Query { css: "span.product__price", attr: "" },
    ];
    assert(q@ =~= row_queries());
    q
}

/// A link of the store as a full address.
pub open spec fn full_url(link: Seq<char>) -> Seq<char> {
    if starts_with(link, "http"@) {
        link
    } else {
        STORE_BASE_URL@ + link
    }
}

impl RowReader for Midgard {
    open spec fn product(row: RowView) -> Option<Raw> {
        if contains(attr_or_empty(row.attr), "sold-out"@) {
            None
        } else {
            match (cell(row, 0), cell(row, 1)) {
                (Some(link), Some(price)) => {
                    let name = inner_text(link);
                    let href = attr_or_empty(link.attr);
                    let text = inner_text(price);
                    match price_amount(text) {
                        Some(amount) if name.len() > 0 && href.len() > 0 && !contains(
                            lowercase(text),
                            "utsolgt"@,
                        ) => Some(Raw { name, amount, url: full_url(href), in_stock: true }),
                        _ => None,
                    }
                },
                _ => None,
            }
        }
    }

    fn read_row(row: &Row) -> (found: Option<RawProduct>) {
        if has(&attr_text(&row.attr), "sold-out") {
            return None;
        }
        let link = match cell_at(row, 0) {
            Some(e) => e,
            None => {
                return None;
            },
        };
        let price = match cell_at(row, 1) {
            Some(e) => e,
            None => {
                return None;
            },
        };
        let name = trimmed_text(link);
        let href = attr_text(&link.attr);
        if name.as_str().is_empty() || href.as_str().is_empty() {
            return None;
        }
        let url = if begins(&href, "http") {
            href
        } else {
            joined(STORE_BASE_URL, &href)
        };
        let text = trimmed_text(price);
        if has(&text.to_lowercase(), "utsolgt") {
            return None;
        }
        match find_price(&text) {
            Some(amount) => Some(RawProduct { name, amount, url, in_stock: true }),
            None => None,
        }
    }
}

/// The products on a search page.
pub open spec fn page_products(html: Seq<char>) -> Result<Seq<Product>, ScrapeError> {
    match page_rows(html, false, "div.product.grid__item"@, "class"@, row_queries()) {
        Some(rows) => read_rows::<Midgard>(rows),
        None => Err(ScrapeError::BadSelector),
    }
}

/// The products on a search page.
pub fn parse_search_results(html: &str) -> (found: Result<Vec<SearchProduct>, ScrapeError>)
    ensures
        result_view(found) == page_products(html@),
{
    match scrape_rows(html, false, "div.product.grid__item", "class", &queries()) {
        Some(rows) => products_from_rows::<Midgard>(&rows),
        None => Err(ScrapeError::BadSelector),
    }
}

/// A product page shows a Magic card if it names the publisher.
pub open spec fn magic_page(html: Seq<char>) -> bool {
    contains(html, "Wizards of the Coast"@)
}

/// Does the product page show a Magic card, and not a sleeve or a playmat?
pub fn is_magic_page(html: &str) -> (b: bool)
    ensures
        b == magic_page(html@),
{
    has(html, "Wizards of the Coast")
}

/// Is the product's page to be looked at for the card?
pub fn needs_check(card_name: &str, product: &SearchProduct) -> (b: bool)
    ensures
        b == wanted_product(card_name@, product@),
{
    product.in_stock && title_contains(card_name, &product.name)
}

/// The listings of the products that name the card and whose pages show a Magic card.
pub open spec fn confirmed(card: Seq<char>, found: Seq<Product>, magic: Seq<bool>) -> Seq<Listing>
    decreases found.len(),
{
    if found.len() == 0 {
        Seq::empty()
    } else {
        let rest = confirmed(card, found.drop_last(), magic.drop_last());
        if wanted_product(card, found.last()) && magic.last() {
            rest.push(product_listing(STORE_NAME@, card, found.last()))
        } else {
            rest
        }
    }
}

/// The results of a search, given which product pages show a Magic card.
pub fn choose_results(card_name: &str, found: &Vec<SearchProduct>, magic: &Vec<bool>) -> (results:
    Vec<StoreResult>)
    requires
        magic@.len() == found@.len(),
    ensures
        listings(results@) == confirmed(card_name@, products(found@), magic@),
{
    let ghost all = products(found@);
    let mut results: Vec<StoreResult> = Vec::new();
    let mut i: usize = 0;
    proof {
        assert(all.take(0) =~= Seq::empty());
        assert(listings(results@) =~= Seq::empty());
    }
    while i < found.len()
        invariant
            all == products(found@),
            magic@.len() == found@.len(),
            i <= found@.len(),
            listings(results@) == confirmed(
                card_name@,
                all.take(i as int),
                magic@.take(i as int),
            ),
        decreases found@.len() - i,
    {
        let ghost before = results@;
        proof {
            assert(all.take(i + 1).drop_last() =~= all.take(i as int));
            assert(magic@.take(i + 1).drop_last() =~= magic@.take(i as int));
            assert(all.take(i + 1).last() == found@[i as int]@);
        }
        if magic[i] && needs_check(card_name, &found[i]) {
            results.push(to_result(STORE_NAME, card_name, &found[i]));
            assert(listings(results@) =~= listings(before).push(results@.last()@));
        }
        i += 1;
    }
    proof {
        assert(all.take(i as int) =~= all);
        assert(magic@.take(i as int) =~= magic@);
    }
    results
}

} // verus!
