//! pokeboks.no

use crate::html::{
    attr_or_empty, attr_text, concat, concat_texts, inner_text, page_rows, scrape_rows,
    trimmed_text, Query, Row, RowView,
};
use crate::stores::page::{
    cell, cell_at, product_listing, products_from_rows, read_rows, result_view, to_result,
    wanted_product, Raw, RawProduct, RowReader,
};
use crate::stores::price::{amount, find_amount, fits, opt_nat, priced, to_price, ScrapeError};
use crate::stores::{
    listings, products, title_contains, Listing, Product, SearchProduct, Store, StoreResult,
};
use crate::text::{
    contains, has, number_class, number_prefix, parse_number, parse_u32, replace, replaced, slice,
    split_at_first, split_once, take_while, to_chars, trim, trimmed, from_chars,
};
use vstd::prelude::*;

verus! {

pub const API_URL: &'static str = "https://pokeboks.no/wp-json/elementor-pro/v1/refresh-search";

/// Fixed IDs of the search widget.
pub const POST_ID: &'static str = "2493";

pub const WIDGET_ID: &'static str = "00b4fbe";

pub const STORE_NAME: &'static str = "pokeboks.no";

pub const TIMEOUT_SECS: u64 = 15;

pub struct Pokeboks;

impl Pokeboks {
    pub fn new() -> (store: Self)
        ensures
            store.store_name() == STORE_NAME@,
            store.timeout() == TIMEOUT_SECS,
    {
        Pokeboks
    }
}

impl Store for Pokeboks {
    open spec fn store_name(&self) -> Seq<char> {
        STORE_NAME@
    }

    open spec fn timeout(&self) -> u64 {
        TIMEOUT_SECS
    }

    open spec fn keys(&self) -> Seq<Seq<char>> {
        seq![STORE_NAME@]
    }

    fn name(&self) -> &str {
        STORE_NAME
    }

    fn timeout_secs(&self) -> u64 {
        TIMEOUT_SECS
    }

    fn cache_keys(&self) -> Vec<String> {
        crate::stores::one_key(STORE_NAME)
    }
}

/// A response without the byte order mark that the store puts in front.
pub open spec fn without_mark(s: Seq<char>) -> Seq<char> {
    if s.len() > 0 && s[0] == '\u{feff}' {
        s.skip(1)
    } else {
        s
    }
}

/// A response without the byte order mark that the store puts in front.
pub fn strip_mark(s: &str) -> (out: String)
    ensures
        out@ == without_mark(s@),
{
    let v = to_chars(s);
    if v.len() > 0 && v[0] == '\u{feff}' {
        let rest = slice(&v, 1, v.len());
        assert(rest@ =~= s@.skip(1));
        from_chars(&rest)
    } else {
        s.to_owned()
    }
}

/// A page is the last one if it has no links to others.
pub fn is_last_page(pagination: &str) -> (b: bool)
    ensures
        b == (trim(pagination@).len() == 0),
{
    trimmed(&to_chars(pagination)).len() == 0
}

/// The amount in a text such as "2,99 kr" or "2,99&nbsp;kr".
pub open spec fn price_amount(raw: Seq<char>) -> Option<nat> {
    let cleaned = trim(replace(replace(raw, "&nbsp;"@, ""@), "kr"@, ""@));
    match split_once(take_while(cleaned, number_class(true, false)), ',') {
        Some((whole, frac)) => amount(parse_number(whole), parse_number(frac)),
        None => None,
    }
}

fn find_price(raw: &str) -> (n: Option<u64>)
    ensures
        opt_nat(n) == price_amount(raw@),
{
    proof {
        reveal_strlit("&nbsp;");
        reveal_strlit("kr");
    }
    let nothing = to_chars("");
    let v = replaced(&to_chars(raw), &to_chars("&nbsp;"), &nothing);
    let v = trimmed(&replaced(&v, &to_chars("kr"), &nothing));
    match split_at_first(&number_prefix(&v, true, false), ',') {
        Some((whole, frac)) => find_amount(parse_u32(&whole), parse_u32(&frac)),
        None => None,
    }
}

/// A price text such as "2,99 kr" or "2,99&nbsp;kr" in oere.
pub fn parse_price(raw: &str) -> (price: Option<u32>)
    requires
        fits(price_amount(raw@)),
    ensures
        price == priced(price_amount(raw@)),
{
    to_price(find_price(raw))
}

/// The cells of a product that are read.
pub open spec fn row_queries() -> Seq<Query> {
    seq![
        Query { css: "h4.elementor-heading-title", attr: "" },
        Query { css: "a", attr: "href" },
        Query { css: "span.woocommerce-Price-amount", attr: "" },
    ]
}

fn queries() -> (q: Vec<Query>)
    ensures
        q@ == row_queries(),
{
    let q = vec![
        Query { css: "h4.elementor-heading-title", attr: "" },
        Query { css: "a", attr: "href" },
        Query { css: "span.woocommerce-Price-amount", attr: "" },
    ];
    assert(q@ =~= row_queries());
    q
}

impl RowReader for Pokeboks {
    open spec fn product(row: RowView) -> Option<Raw> {
        match (cell(row, 0), cell(row, 1), cell(row, 2)) {
            (Some(title), Some(link), Some(price)) => {
                let name = inner_text(title);
                let url = attr_or_empty(link.attr);
                match price_amount(concat(price.texts)) {
                    Some(amount) if name.len() > 0 && url.len() > 0 => Some(
                        Raw {
                            name,
                            amount,
                            url,
                            in_stock: contains(attr_or_empty(row.attr), "instock"@),
                        },
                    ),
                    _ => None,
                }
            },
            _ => None,
        }
    }

    fn read_row(row: &Row) -> (found: Option<RawProduct>) {
        let in_stock: bool = has(&attr_text(&row.attr), "instock");
        let title = match cell_at(row, 0) {
            Some(e) => e,
            None => {
                return None;
            },
        };
        let link = match cell_at(row, 1) {
            Some(e) => e,
            None => {
                return None;
            },
        };
        let price = match cell_at(row, 2) {
            Some(e) => e,
            None => {
                return None;
            },
        };
        let name = trimmed_text(title);
        let url = attr_text(&link.attr);
        if name.as_str().is_empty() || url.as_str().is_empty() {
            return None;
        }
        match find_price(&concat_texts(&price.texts)) {
            Some(amount) => Some(RawProduct { name, amount, url, in_stock }),
            None => None,
        }
    }
}

/// The products on a search page.
pub open spec fn page_products(html: Seq<char>) -> Result<Seq<Product>, ScrapeError> {
    match page_rows(html, true, "[data-elementor-type=\"loop-item\"]"@, "class"@, row_queries()) {
        Some(rows) => read_rows::<Pokeboks>(rows),
        None => Err(ScrapeError::BadSelector),
    }
}

/// The products on a search page.
pub fn parse_search_html(html: &str) -> (found: Result<Vec<SearchProduct>, ScrapeError>)
    ensures
        result_view(found) == page_products(html@),
{
    match scrape_rows(html, true, "[data-elementor-type=\"loop-item\"]", "class", &queries()) {
        Some(rows) => products_from_rows::<Pokeboks>(&rows),
        None => Err(ScrapeError::BadSelector),
    }
}

/// The listings of all products in stock that name the card.
pub open spec fn matching(card: Seq<char>, found: Seq<Product>) -> Seq<Listing>
    decreases found.len(),
{
    if found.len() == 0 {
        Seq::empty()
    } else {
        let rest = matching(card, found.drop_last());
        if wanted_product(card, found.last()) {
            rest.push(product_listing(STORE_NAME@, card, found.last()))
        } else {
            rest
        }
    }
}

/// The results of a search: all products in stock that name the card, so that
/// the cheapest variant can be picked later.
pub fn choose_results(card_name: &str, found: &Vec<SearchProduct>) -> (results: Vec<StoreResult>)
    ensures
        listings(results@) == matching(card_name@, products(found@)),
{
    let ghost all = products(found@);
    let mut results: Vec<StoreResult> = Vec::new();
    let mut i: usize = 0;
    proof {
        assert(all.take(0) =~= Seq::empty());
        assert(listings(results@) =~= Seq::empty());
    }
    while i < found.len()
        invariant
            all == products(found@),
            i <= found@.len(),
            listings(results@) == matching(card_name@, all.take(i as int)),
        decreases found@.len() - i,
    {
        let ghost before = results@;
        proof {
            assert(all.take(i + 1).drop_last() =~= all.take(i as int));
            assert(all.take(i + 1).last() == found@[i as int]@);
        }
        if found[i].in_stock && title_contains(card_name, &found[i].name) {
            results.push(to_result(STORE_NAME, card_name, &found[i]));
            assert(listings(results@) =~= listings(before).push(results@.last()@));
        }
        i += 1;
    }
    assert(all.take(i as int) =~= all);
    results
}

} // verus!
