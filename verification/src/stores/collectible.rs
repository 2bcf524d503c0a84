//! collectible.no

use crate::html::{
    attr_text, concat, concat_texts, document_elements, document_select, elems, inner_text,
    page_rows, scrape_rows, trimmed_text, Elem, Element, Query, Row, RowView,
};
use crate::stores::page::{
    cell, cell_at, product_listing, products_from_rows, read_rows, result_view, to_result, Raw,
    RawProduct, RowReader,
};
use crate::stores::price::{amount, find_amount, fits, opt_nat, priced, to_price, ScrapeError};
use crate::stores::{
    listings, products, title_contains, titled, urlencode_plus, Listing, Product, SearchProduct,
    Store, StoreResult,
};
use crate::text::{
    first_word, joined, parse_number, parse_u32, replace, split_at_first, split_once, take_while,
    to_chars, trim, trim_end_char, trimmed, without_trailing, word_class,
};
use vstd::prelude::*;

verus! {

pub const SEARCH_URL: &'static str = "https://collectible.no/";

pub const STORE_NAME: &'static str = "collectible.no";

pub const TIMEOUT_SECS: u64 = 30;

pub struct Collectible;

impl Collectible {
    pub fn new() -> (store: Self)
        ensures
            store.store_name() == STORE_NAME@,
            store.timeout() == TIMEOUT_SECS,
    {
        Collectible
    }
}

impl Store for Collectible {
    open spec fn store_name(&self) -> Seq<char> {
        STORE_NAME@
    }

    open spec fn timeout(&self) -> u64 {
        TIMEOUT_SECS
    }

    open spec fn keys(&self) -> Seq<Seq<char>> {
        seq![STORE_NAME@]
    }

    fn name(&self) -> &str {
        STORE_NAME
    }

    fn timeout_secs(&self) -> u64 {
        TIMEOUT_SECS
    }

    fn cache_keys(&self) -> Vec<String> {
        crate::stores::one_key(STORE_NAME)
    }
}

/// The address of a search.
pub fn search_url(card_name: &str) -> (url: String)
    ensures
        url@ == SEARCH_URL@ + "?s="@ + replace(card_name@, " "@, "+"@)
            + "&post_type=product&stock_status=instock"@,
{
    let start = joined(&joined(SEARCH_URL, "?s="), &urlencode_plus(card_name));
    joined(&start, "&post_type=product&stock_status=instock")
}

/// The status codes with which the store sends a search on to a product page.
pub open spec fn redirects(status: u16) -> bool {
    status == 301 || status == 302 || status == 303 || status == 307 || status == 308
}

/// Does the store send the search on to a product page?
pub fn is_redirect(status: u16) -> (b: bool)
    ensures
        b == redirects(status),
{
    status == 301 || status == 302 || status == 303 || status == 307 || status == 308
}

/// The amount in a text such as "3,90 kr".
pub open spec fn price_amount(raw: Seq<char>) -> Option<nat> {
    let word = take_while(trim(raw), word_class());
    if word.len() == 0 {
        None
    } else {
        match split_once(trim_end_char(word, ','), ',') {
            Some((whole, frac)) => amount(parse_number(whole), parse_number(frac)),
            None => None,
        }
    }
}

fn find_price(raw: &str) -> (n: Option<u64>)
    ensures
        opt_nat(n) == price_amount(raw@),
{
    let word = first_word(&trimmed(&to_chars(raw)));
    if word.len() == 0 {
        return None;
    }
    match split_at_first(&without_trailing(word, ','), ',') {
        Some((whole, frac)) => find_amount(parse_u32(&whole), parse_u32(&frac)),
        None => None,
    }
}

/// A price text such as "3,90 kr" in oere.
pub fn parse_price(raw: &str) -> (price: Option<u32>)
    requires
        fits(price_amount(raw@)),
    ensures
        price == priced(price_amount(raw@)),
{
    to_price(find_price(raw))
}

/// The cells of a product that are read.
pub open spec fn row_queries() -> Seq<Query> {
    seq![
        Query { css: "p.name.product-title a", attr: "href" },
        Query { css: "span.price span.woocommerce-Price-amount.amount bdi", attr: "" },
    ]
}

fn queries() -> (q: Vec<Query>)
    ensures
        q@ == row_queries(),
{
    let q = vec![
        Query { css: "p.name.product-title a", attr: "href" },
        Query { css: "span.price span.woocommerce-Price-amount.amount bdi", attr: "" },
    ];
    assert(q@ =~= row_queries());
    q
}

impl RowReader for Collectible {
    open spec fn product(row: RowView) -> Option<Raw> {
        match (cell(row, 0), cell(row, 1)) {
            (Some(link), Some(price)) => match (link.attr, price_amount(concat(price.texts))) {
                (Some(url), Some(amount)) => Some(
                    Raw { name: inner_text(link), amount, url, in_stock: true },
                ),
                _ => None,
            },
            _ => None,
        }
    }

    fn read_row(row: &Row) -> (found: Option<RawProduct>) {
        let link = match cell_at(row, 0) {
            Some(e) => e,
            None => {
                return None;
            },
        };
        let price = match cell_at(row, 1) {
            Some(e) => e,
            None => {
                return None;
            },
        };
        if link.attr.is_none() {
            return None;
        }
        match find_price(&concat_texts(&price.texts)) {
            Some(amount) => {
                let name = trimmed_text(link);
                let url = attr_text(&link.attr);
                Some(RawProduct { name, amount, url, in_stock: true })
            },
            None => None,
        }
    }
}

/// The products on a search page.
pub open spec fn page_products(html: Seq<char>) -> Result<Seq<Product>, ScrapeError> {
    match page_rows(html, false, "div.product-small"@, ""@, row_queries()) {
        Some(rows) => read_rows::<Collectible>(rows),
        None => Err(ScrapeError::BadSelector),
    }
}

/// The products on a search page.
pub fn parse_search_results(html: &str) -> (found: Result<Vec<SearchProduct>, ScrapeError>)
    ensures
        result_view(found) == page_products(html@),
{
    match scrape_rows(html, false, "div.product-small", "", &queries()) {
        Some(rows) => products_from_rows::<Collectible>(&rows),
        None => Err(ScrapeError::BadSelector),
    }
}

/// The first product whose title names the card.
pub open spec fn first_index(card: Seq<char>, found: Seq<Product>, from: int) -> Option<int>
    decreases found.len() - from,
{
    if from < 0 || from >= found.len() {
        None
    } else if titled(card, found[from].name) {
        Some(from)
    } else {
        first_index(card, found, from + 1)
    }
}

/// The result of a search: the first product whose title names the card.
pub open spec fn chosen(card: Seq<char>, found: Seq<Product>) -> Seq<Listing> {
    match first_index(card, found, 0) {
        Some(i) => seq![product_listing(STORE_NAME@, card, found[i])],
        None => Seq::empty(),
    }
}

/// The result of a search: the first product whose title names the card.
pub fn choose_results(card_name: &str, found: &Vec<SearchProduct>) -> (results: Vec<StoreResult>)
    ensures
        listings(results@) == chosen(card_name@, products(found@)),
{
    let ghost all = products(found@);
    let mut results: Vec<StoreResult> = Vec::new();
    let mut i: usize = 0;
    while i < found.len()
        invariant
            all == products(found@),
            i <= found@.len(),
            results@.len() == 0,
            first_index(card_name@, all, 0) == first_index(card_name@, all, i as int),
        decreases found@.len() - i,
    {
        assert(all[i as int] == found@[i as int]@);
        if title_contains(card_name, &found[i].name) {
            results.push(to_result(STORE_NAME, card_name, &found[i]));
            assert(listings(results@) =~= chosen(card_name@, all));
            return results;
        }
        i += 1;
    }
    assert(listings(results@) =~= chosen(card_name@, all));
    results
}

/// The result of a search that was sent on to a product page: that product, if
/// its title names the card.  The store sometimes sends on to another card.
pub fn redirect_results(card_name: &str, product_url: &str, price: u32, title: &str) -> (results:
    Vec<StoreResult>)
    ensures
        listings(results@) == if titled(card_name@, title@) {
            seq![
                Listing { store: STORE_NAME@, card: card_name@, price, url: product_url@ },
            ]
        } else {
            Seq::empty()
        },
{
    let mut results: Vec<StoreResult> = Vec::new();
    if title_contains(card_name, title) {
        let result = StoreResult {
            store_name: STORE_NAME.to_owned(),
            card_name: card_name.to_owned(),
            price,
            url: product_url.to_owned(),
        };
        results.push(result);
        assert(listings(results@) =~= seq![result@]);
    } else {
        assert(listings(results@) =~= Seq::empty());
    }
    results
}

/// Why the details of a product page could not be read.
#[derive(Debug, PartialEq, Eq, Structural, Clone, Copy)]
pub enum DetailError {
    /// A selector is not valid CSS.
    BadSelector,
    /// The price is too large for its type.
    PriceTooLarge,
    /// The page shows no price.
    NoPrice,
}

/// The amount in the first of the elements.
pub open spec fn first_amount(els: Seq<Elem>) -> Option<nat> {
    if els.len() == 0 {
        None
    } else {
        price_amount(concat(els[0].texts))
    }
}

/// The text of the first of the elements, or nothing as an empty text.
pub open spec fn first_title(els: Seq<Elem>) -> Seq<char> {
    if els.len() == 0 {
        Seq::empty()
    } else {
        inner_text(els[0])
    }
}

/// Price and title of a product page, from its headings and its two kinds of
/// price elements; the first kind goes first.
pub open spec fn details(titles: Seq<Elem>, first: Seq<Elem>, second: Seq<Elem>) -> Result<
    (u32, Seq<char>),
    DetailError,
> {
    let n = match first_amount(first) {
        Some(n) => Some(n),
        None => first_amount(second),
    };
    match n {
        Some(n) => if n <= u32::MAX {
            Ok((n as u32, first_title(titles)))
        } else {
            Err(DetailError::PriceTooLarge)
        },
        None => Err(DetailError::NoPrice),
    }
}

/// Price and title, or the error, as plain values.
pub open spec fn details_view(r: Result<(u32, String), DetailError>) -> Result<
    (u32, Seq<char>),
    DetailError,
> {
    match r {
        Ok((price, title)) => Ok((price, title@)),
        Err(e) => Err(e),
    }
}

fn find_first_amount(els: &Vec<Element>) -> (n: Option<u64>)
    ensures
        opt_nat(n) == first_amount(elems(els@)),
{
    if els.len() == 0 {
        None
    } else {
        assert(elems(els@)[0] == els@[0]@);
        find_price(&concat_texts(&els[0].texts))
    }
}

/// Price and title of a product page, from its elements.
pub fn details_from_elements(
    titles: &Vec<Element>,
    first: &Vec<Element>,
    second: &Vec<Element>,
) -> (found: Result<(u32, String), DetailError>)
    ensures
        details_view(found) == details(elems(titles@), elems(first@), elems(second@)),
{
    let title = if titles.len() == 0 {
        String::new()
    } else {
        assert(elems(titles@)[0] == titles@[0]@);
        trimmed_text(&titles[0])
    };
    let n = match find_first_amount(first) {
        Some(n) => Some(n),
        None => find_first_amount(second),
    };
    match n {
        Some(n) => {
            if n <= u32::MAX as u64 {
                Ok((n as u32, title))
            } else {
                Err(DetailError::PriceTooLarge)
            }
        },
        None => Err(DetailError::NoPrice),
    }
}

/// The page's elements for a selector.
pub open spec fn page_elements(html: Seq<char>, css: Seq<char>) -> Option<Seq<Elem>> {
    document_elements(html, css, ""@)
}

/// Price and title of a product page.
pub open spec fn page_details(html: Seq<char>) -> Result<(u32, Seq<char>), DetailError> {
    match (
        page_elements(html, "h1.product-title"@),
        page_elements(html, "p.price span.woocommerce-Price-amount.amount bdi"@),
        page_elements(html, "span.price span.woocommerce-Price-amount.amount bdi"@),
    ) {
        (Some(titles), Some(first), Some(second)) => details(titles, first, second),
        _ => Err(DetailError::BadSelector),
    }
}

/// Price and title of a product page.
pub fn product_details(html: &str) -> (found: Result<(u32, String), DetailError>)
    ensures
        details_view(found) == page_details(html@),
{
    let titles = document_select(html, "h1.product-title", "");
    let first = document_select(html, "p.price span.woocommerce-Price-amount.amount bdi", "");
    let second = document_select(html, "span.price span.woocommerce-Price-amount.amount bdi", "");
    match (titles, first, second) {
        (Some(t), Some(a), Some(b)) => details_from_elements(&t, &a, &b),
        _ => Err(DetailError::BadSelector),
    }
}

} // verus!
