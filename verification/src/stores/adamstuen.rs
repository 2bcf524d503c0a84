//! adamstuenretro.no

use crate::html::{
    attr_or_empty, attr_text, concat, concat_texts, inner_text, page_rows, scrape_rows,
    trimmed_text, Query, Row, RowView,
};
use crate::stores::page::{
    cell, cell_at, product_listing, products_from_rows, read_rows, result_view, to_result,
    wanted_product, Raw, RawProduct, RowReader,
};
use crate::stores::price::{fits, opt_nat, priced, to_price, ScrapeError};
use crate::stores::{
    listings, products, title_contains, urlencode_pct, Listing, Product, SearchProduct, Store,
    StoreResult,
};
use crate::text::{
    contains, has, is_digit, joined, keep_digits, parse_number, parse_u32, replace, replaced, texts,
    to_chars, trim, trimmed,
};
use vstd::prelude::*;

verus! {

pub const SEARCH_URL: &'static str = "https://adamstuenretro.no/index.php";

pub const STORE_NAME: &'static str = "adamstuenretro.no";

pub const TIMEOUT_SECS: u64 = 15;

pub struct Adamstuen;

impl Adamstuen {
    pub fn new() -> (store: Self)
        ensures
            store.store_name() == STORE_NAME@,
            store.timeout() == TIMEOUT_SECS,
    {
        Adamstuen
    }
}

impl Store for Adamstuen {
    open spec fn store_name(&self) -> Seq<char> {
        STORE_NAME@
    }

    open spec fn timeout(&self) -> u64 {
        TIMEOUT_SECS
    }

    open spec fn keys(&self) -> Seq<Seq<char>> {
        seq![STORE_NAME@]
    }

    fn name(&self) -> &str {
        STORE_NAME
    }

    fn timeout_secs(&self) -> u64 {
        TIMEOUT_SECS
    }

    fn cache_keys(&self) -> Vec<String> {
        crate::stores::one_key(STORE_NAME)
    }
}

/// The address of a search.
pub fn search_url(card_name: &str) -> (url: String)
    ensures
        url@ == SEARCH_URL@ + "?route=product/search&search="@ + replace(
            card_name@,
            " "@,
            "%20"@,
        ),
{
    joined(&joined(SEARCH_URL, "?route=product/search&search="), &urlencode_pct(card_name))
}

/// The amount in a text such as "4 NOK" or "1,499 NOK": all its digits as kroner.
pub open spec fn price_amount(raw: Seq<char>) -> Option<nat> {
    let cleaned = trim(replace(replace(raw, "NOK"@, ""@), " "@, ""@));
    if cleaned.len() == 0 {
        None
    } else {
        match parse_number(cleaned.filter(|c: char| is_digit(c))) {
            Some(whole) => Some((whole * 100) as nat),
            None => None,
        }
    }
}

fn find_price(raw: &str) -> (n: Option<u64>)
    ensures
        opt_nat(n) == price_amount(raw@),
{
    proof {
        reveal_strlit("NOK");
        reveal_strlit(" ");
    }
    let nothing = to_chars("");
    let v = replaced(&to_chars(raw), &to_chars("NOK"), &nothing);
    let v = trimmed(&replaced(&v, &to_chars(" "), &nothing));
    if v.len() == 0 {
        return None;
    }
    match parse_u32(&keep_digits(&v)) {
        Some(whole) => Some(whole as u64 * 100),
        None => None,
    }
}

/// A price text such as "4 NOK" or "1,499 NOK" in oere.
pub fn parse_price(raw: &str) -> (price: Option<u32>)
    requires
        fits(price_amount(raw@)),
    ensures
        price == priced(price_amount(raw@)),
{
    to_price(find_price(raw))
}

/// The cells of a product: its link, its price and its cart button.
fn queries() -> (q: Vec<Query>)
    ensures
        q@ == row_queries(),
{
    let q = vec![
        Query { css: "div.name a", attr: "href" },
        Query { css: "span.price-normal", attr: "" },
        Query { css: "a.btn-cart", attr: "" },
    ];
    assert(q@ =~= row_queries());
    q
}

pub open spec fn row_queries() -> Seq<Query> {
    seq![
        Query { css: "div.name a", attr: "href" },
        Query { css: "span.price-normal", attr: "" },
        Query { css: "a.btn-cart", attr: "" },
    ]
}

impl RowReader for Adamstuen {
    open spec fn product(row: RowView) -> Option<Raw> {
        if contains(attr_or_empty(row.attr), "out-of-stock"@) {
            None
        } else {
            match (cell(row, 0), cell(row, 1)) {
                (Some(link), Some(price)) => {
                    let name = inner_text(link);
                    let url = attr_or_empty(link.attr);
                    match price_amount(concat(price.texts)) {
                        Some(amount) if name.len() > 0 && url.len() > 0 => Some(
                            Raw { name, amount, url, in_stock: cell(row, 2) is Some },
                        ),
                        _ => None,
                    }
                },
                _ => None,
            }
        }
    }

    fn read_row(row: &Row) -> (found: Option<RawProduct>) {
        if has(&attr_text(&row.attr), "out-of-stock") {
            return None;
        }
        let link = match cell_at(row, 0) {
            Some(e) => e,
            None => {
                return None;
            },
        };
        let price = match cell_at(row, 1) {
            Some(e) => e,
            None => {
                return None;
            },
        };
        let name = trimmed_text(link);
        let url = attr_text(&link.attr);
        if name.as_str().is_empty() || url.as_str().is_empty() {
            return None;
        }
        match find_price(&concat_texts(&price.texts)) {
            Some(amount) => {
                let in_stock: bool = cell_at(row, 2).is_some();
                Some(RawProduct { name, amount, url, in_stock })
            },
            None => None,
        }
    }
}

/// The products on a search page.
pub open spec fn page_products(html: Seq<char>) -> Result<Seq<Product>, ScrapeError> {
    match page_rows(html, false, "div.product-layout"@, "class"@, row_queries()) {
        Some(rows) => read_rows::<Adamstuen>(rows),
        None => Err(ScrapeError::BadSelector),
    }
}

/// The products on a search page.
pub fn parse_search_results(html: &str) -> (found: Result<Vec<SearchProduct>, ScrapeError>)
    ensures
        result_view(found) == page_products(html@),
{
    match scrape_rows(html, false, "div.product-layout", "class", &queries()) {
        Some(rows) => products_from_rows::<Adamstuen>(&rows),
        None => Err(ScrapeError::BadSelector),
    }
}

/// Where the cheapest product in stock that names the card stands; the first of equals.
pub open spec fn best_index(card: Seq<char>, found: Seq<Product>) -> Option<int>
    decreases found.len(),
{
    if found.len() == 0 {
        None
    } else {
        let rest = best_index(card, found.drop_last());
        if !wanted_product(card, found.last()) {
            rest
        } else {
            match rest {
                Some(i) if found[i].price <= found.last().price => rest,
                _ => Some(found.len() - 1),
            }
        }
    }
}

/// The result of a search: the cheapest product in stock that names the card.
pub open spec fn chosen(card: Seq<char>, found: Seq<Product>) -> Seq<Listing> {
    match best_index(card, found) {
        Some(i) => seq![product_listing(STORE_NAME@, card, found[i])],
        None => Seq::empty(),
    }
}

/// The result of a search: the cheapest product in stock that names the card.
pub fn choose_results(card_name: &str, found: &Vec<SearchProduct>) -> (results: Vec<StoreResult>)
    ensures
        listings(results@) == chosen(card_name@, products(found@)),
{
    let ghost all = products(found@);
    let mut best: Option<usize> = None;
    let mut i: usize = 0;
    assert(all.take(0) =~= Seq::empty());
    while i < found.len()
        invariant
            all == products(found@),
            i <= found@.len(),
            match best_index(card_name@, all.take(i as int)) {
                Some(k) => best matches Some(b) && b == k && b < i,
                None => best is None,
            },
        decreases found@.len() - i,
    {
        proof {
            let t = all.take(i + 1);
            assert(t.drop_last() =~= all.take(i as int));
            assert(t.last() == found@[i as int]@);
        }
        if found[i].in_stock && title_contains(card_name, &found[i].name) {
            let keep: bool = match best {
                Some(b) => {
                    assert(all.take(i + 1)[b as int] == found@[b as int]@);
                    found[b].price <= found[i].price
                },
                None => false,
            };
            if !keep {
                best = Some(i);
            }
        }
        i += 1;
    }
    assert(all.take(i as int) =~= all);
    let mut results: Vec<StoreResult> = Vec::new();
    if let Some(b) = best {
        results.push(to_result(STORE_NAME, card_name, &found[b]));
        assert(all[b as int] == found@[b as int]@);
    }
    assert(listings(results@) =~= chosen(card_name@, all));
    results
}

} // verus!
