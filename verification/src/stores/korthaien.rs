//! korthaien.no

use crate::html::{
    attr_or_empty, attr_text, concat, concat_texts, inner_text, page_rows, scrape_rows,
    trimmed_text, Query, Row, RowView,
};
use crate::stores::page::{
    cell, cell_at, product_listing, products_from_rows, read_rows, result_view, to_result, Raw,
    RawProduct, RowReader,
};
use crate::stores::price::{fits, opt_nat, priced, to_price, ScrapeError};
use crate::stores::{
    listings, products, urlencode_pct, Listing, Product, SearchProduct, Store, StoreResult,
};
use crate::text::{
    before_suffix, ends_with, eq_ignore_ascii_case, from_chars, joined, number_class, number_prefix,
    parse_number, parse_u32, replace, same_ignoring_case, take_while, to_chars, trim, trimmed,
};
use vstd::prelude::*;

verus! {

pub const SEARCH_URL: &'static str = "https://www.korthaien.no/search_result";

pub const STORE_NAME: &'static str = "korthaien.no";

pub const TIMEOUT_SECS: u64 = 15;

pub struct Korthaien;

impl Korthaien {
    pub fn new() -> (store: Self)
        ensures
            store.store_name() == STORE_NAME@,
            store.timeout() == TIMEOUT_SECS,
    {
        Korthaien
    }
}

impl Store for Korthaien {
    open spec fn store_name(&self) -> Seq<char> {
        STORE_NAME@
    }

    open spec fn timeout(&self) -> u64 {
        TIMEOUT_SECS
    }

    open spec fn keys(&self) -> Seq<Seq<char>> {
        seq![STORE_NAME@]
    }

    fn name(&self) -> &str {
        STORE_NAME
    }

    fn timeout_secs(&self) -> u64 {
        TIMEOUT_SECS
    }

    fn cache_keys(&self) -> Vec<String> {
        crate::stores::one_key(STORE_NAME)
    }
}

/// The address of a search.
pub fn search_url(card_name: &str) -> (url: String)
    ensures
        url@ == SEARCH_URL@ + "?keywords="@ + replace(card_name@, " "@, "%20"@),
{
    joined(&joined(SEARCH_URL, "?keywords="), &urlencode_pct(card_name))
}

/// The amount in a text such as "6,-": its leading digits as kroner.
pub open spec fn price_amount(raw: Seq<char>) -> Option<nat> {
    match parse_number(take_while(trim(raw), number_class(false, false))) {
        Some(whole) => Some((whole * 100) as nat),
        None => None,
    }
}

fn find_price(raw: &str) -> (n: Option<u64>)
    ensures
        opt_nat(n) == price_amount(raw@),
{
    match parse_u32(&number_prefix(&trimmed(&to_chars(raw)), false, false)) {
        Some(whole) => Some(whole as u64 * 100),
        None => None,
    }
}

/// A price text such as "6,-" in oere.
pub fn parse_price(raw: &str) -> (price: Option<u32>)
    requires
        fits(price_amount(raw@)),
    ensures
        price == priced(price_amount(raw@)),
{
    to_price(find_price(raw))
}

/// The cells of a product that are read.
pub open spec fn row_queries() -> Seq<Query> {
    seq![
        Query { css: "a.pb_title", attr: "href" },
        Query { css: "p.text-xl.font-bold", attr: "" },
    ]
}

fn queries() -> (q: Vec<Query>)
    ensures
        q@ == row_queries(),
{
    let q = vec![
        Query { css: "a.pb_title", attr: "href" },
        Query { css: "p.text-xl.font-bold", attr: "" },
    ];
    assert(q@ =~= row_queries());
    q
}

/// The number of pieces in stock that a row states; none if it states no number.
pub open spec fn stock(row: RowView) -> u32 {
    match row.attr {
        Some(a) => match parse_number(a) {
            Some(n) => n,
            None => 0,
        },
        None => 0,
    }
}

impl RowReader for Korthaien {
    open spec fn product(row: RowView) -> Option<Raw> {
        match (cell(row, 0), cell(row, 1)) {
            (Some(link), Some(price)) => {
                let name = inner_text(link);
                let url = attr_or_empty(link.attr);
                match price_amount(concat(price.texts)) {
                    Some(amount) if name.len() > 0 && url.len() > 0 => Some(
                        Raw { name, amount, url, in_stock: stock(row) > 0 },
                    ),
                    _ => None,
                }
            },
            _ => None,
        }
    }

    fn read_row(row: &Row) -> (found: Option<RawProduct>) {
        let pieces: u32 = match &row.attr {
            Some(a) => match parse_u32(&to_chars(a)) {
                Some(n) => n,
                None => 0,
            },
            None => 0,
        };
        let link = match cell_at(row, 0) {
            Some(e) => e,
            None => {
                return None;
            },
        };
        let price = match cell_at(row, 1) {
            Some(e) => e,
            None => {
                return None;
            },
        };
        let name = trimmed_text(link);
        let url = attr_text(&link.attr);
        if name.as_str().is_empty() || url.as_str().is_empty() {
            return None;
        }
        match find_price(&concat_texts(&price.texts)) {
            Some(amount) => Some(RawProduct { name, amount, url, in_stock: pieces > 0 }),
            None => None,
        }
    }
}

/// The products on a search page.
pub open spec fn page_products(html: Seq<char>) -> Result<Seq<Product>, ScrapeError> {
    match page_rows(html, false, "article.product-thumb-info"@, "data-stock-quantity"@, row_queries()) {
        Some(rows) => read_rows::<Korthaien>(rows),
        None => Err(ScrapeError::BadSelector),
    }
}

/// The products on a search page.
pub fn parse_search_results(html: &str) -> (found: Result<Vec<SearchProduct>, ScrapeError>)
    ensures
        result_view(found) == page_products(html@),
{
    match scrape_rows(html, false, "article.product-thumb-info", "data-stock-quantity", &queries()) {
        Some(rows) => products_from_rows::<Korthaien>(&rows),
        None => Err(ScrapeError::BadSelector),
    }
}

/// A product name without its foil suffix.
pub open spec fn without_foil(name: Seq<char>) -> Seq<char> {
    if ends_with(name, " (foil)"@) {
        name.take(name.len() - " (foil)"@.len())
    } else if ends_with(name, " (Foil)"@) {
        name.take(name.len() - " (Foil)"@.len())
    } else if ends_with(name, " (FOIL)"@) {
        name.take(name.len() - " (FOIL)"@.len())
    } else {
        name
    }
}

/// A product name without its foil suffix.
pub fn strip_foil(name: &str) -> (stripped: String)
    ensures
        stripped@ == without_foil(name@),
{
    if let Some(s) = before_suffix(name, " (foil)") {
        return s;
    }
    if let Some(s) = before_suffix(name, " (Foil)") {
        return s;
    }
    if let Some(s) = before_suffix(name, " (FOIL)") {
        return s;
    }
    name.to_owned()
}

/// The product is the card, foil or not.
pub open spec fn is_match(searched: Seq<char>, product: Seq<char>) -> bool {
    same_ignoring_case(searched, without_foil(product))
}

/// Is the product the card, foil or not?
pub fn names_match(searched: &str, product_name: &str) -> (b: bool)
    ensures
        b == is_match(searched@, product_name@),
{
    eq_ignore_ascii_case(searched, &strip_foil(product_name))
}

/// The product goes by another name than the card itself, as foils do.
pub open spec fn is_foil(searched: Seq<char>, p: Product) -> bool {
    !same_ignoring_case(searched, trim(p.name))
}

/// `a` is to be preferred to `b`: plain before foil, then the cheaper.
pub open spec fn better(searched: Seq<char>, a: Product, b: Product) -> bool {
    if is_foil(searched, a) == is_foil(searched, b) {
        a.price < b.price
    } else {
        !is_foil(searched, a)
    }
}

fn looks_foil(searched: &str, p: &SearchProduct) -> (b: bool)
    ensures
        b == is_foil(searched@, p@),
{
    !eq_ignore_ascii_case(searched, &from_chars(&trimmed(&to_chars(&p.name))))
}

/// The best match: plain before foil, then the cheapest; the first of equals.
pub fn pick_best<'a>(found: &[&'a SearchProduct], searched: &str) -> (best: Option<
    &'a SearchProduct,
>)
    ensures
        match best {
            Some(b) => exists|i: int|
                0 <= i < found@.len() && #[trigger] found@[i] == b && (forall|k: int|
                    0 <= k < found@.len() ==> !better(searched@, (#[trigger] found@[k])@, b@)) && (
                forall|k: int| 0 <= k < i ==> better(searched@, b@, (#[trigger] found@[k])@)),
            None => found@.len() == 0,
        },
{
    if found.len() == 0 {
        return None;
    }
    let mut at: usize = 0;
    let mut foil: bool = looks_foil(searched, found[0]);
    let mut i: usize = 1;
    while i < found.len()
        invariant
            0 <= at < i <= found@.len(),
            foil == is_foil(searched@, found@[at as int]@),
            forall|k: int|
                0 <= k < i ==> !better(
                    searched@,
                    (#[trigger] found@[k])@,
                    found@[at as int]@,
                ),
            forall|k: int|
                0 <= k < at ==> better(searched@, found@[at as int]@, (#[trigger] found@[k])@),
        decreases found@.len() - i,
    {
        let f: bool = looks_foil(searched, found[i]);
        let wins: bool = if f == foil {
            found[i].price < found[at].price
        } else {
            !f
        };
        if wins {
            proof {
                assert forall|k: int| 0 <= k < i implies better(
                    searched@,
                    found@[i as int]@,
                    (#[trigger] found@[k])@,
                ) by {
                    assert(!better(searched@, found@[k]@, found@[at as int]@));
                }
            }
            at = i;
            foil = f;
        }
        i += 1;
    }
    Some(found[at])
}

/// The product is in stock and is the card.
pub open spec fn available(card: Seq<char>, p: Product) -> bool {
    p.in_stock && is_match(card, p.name)
}

/// The listing is that of the best available product: plain before foil, then
/// the cheapest, and the first of equals.
pub open spec fn is_choice(card: Seq<char>, found: Seq<Product>, chosen: Seq<Listing>) -> bool {
    if exists|i: int| 0 <= i < found.len() && available(card, #[trigger] found[i]) {
        exists|i: int|
            0 <= i < found.len() && available(card, #[trigger] found[i]) && chosen == seq![
                product_listing(STORE_NAME@, card, found[i]),
            ] && (forall|k: int|
                0 <= k < found.len() && available(card, #[trigger] found[k]) ==> !better(
                    card,
                    found[k],
                    found[i],
                )) && (forall|k: int|
                0 <= k < i && available(card, #[trigger] found[k]) ==> better(
                    card,
                    found[i],
                    found[k],
                ))
    } else {
        chosen.len() == 0
    }
}

/// The result of a search: the best available product.
pub fn choose_results(card_name: &str, found: &Vec<SearchProduct>) -> (results: Vec<StoreResult>)
    ensures
        is_choice(card_name@, products(found@), listings(results@)),
{
    let ghost all = products(found@);
    let mut matching: Vec<&SearchProduct> = Vec::new();
    let ghost mut from: Seq<int> = Seq::empty();
    let mut i: usize = 0;
    while i < found.len()
        invariant
            all == products(found@),
            i <= found@.len(),
            from.len() == matching@.len(),
            forall|k: int|
                0 <= k < from.len() ==> 0 <= (#[trigger] from[k]) < i && found@[from[k]]
                    == matching@[k] && available(card_name@, all[from[k]]),
            forall|a: int, b: int| 0 <= a < b < from.len() ==> from[a] < from[b],
            forall|j: int|
                0 <= j < i && available(card_name@, #[trigger] all[j]) ==> from.contains(j),
        decreases found@.len() - i,
    {
        assert(all[i as int] == found@[i as int]@);
        if found[i].in_stock && names_match(card_name, &found[i].name) {
            matching.push(&found[i]);
            let ghost before = from;
            proof {
                from = from.push(i as int);
                assert forall|j: int|
                    0 <= j < i + 1 && available(card_name@, #[trigger] all[j]) implies
                    from.contains(j) by {
                    if j < i {
                        let k = choose|k: int| 0 <= k < before.len() && before[k] == j;
                        assert(from[k] == j);
                    } else {
                        assert(from[before.len() as int] == j);
                    }
                }
            }
        }
        i += 1;
    }
    let mut results: Vec<StoreResult> = Vec::new();
    match pick_best(matching.as_slice(), card_name) {
        Some(best) => {
            results.push(to_result(STORE_NAME, card_name, best));
            proof {
                let w = choose|w: int|
                    0 <= w < matching@.len() && #[trigger] matching@[w] == best && (forall|k: int|
                        0 <= k < matching@.len() ==> !better(
                            card_name@,
                            (#[trigger] matching@[k])@,
                            best@,
                        )) && (forall|k: int|
                        0 <= k < w ==> better(
                            card_name@,
                            best@,
                            (#[trigger] matching@[k])@,
                        ));
                let p = from[w];
                assert(all[p] == best@);
                assert(available(card_name@, all[p]));
                assert(listings(results@) =~= seq![
                    product_listing(STORE_NAME@, card_name@, all[p]),
                ]);
                assert forall|k: int|
                    0 <= k < all.len() && available(card_name@, #[trigger] all[k]) implies !better(
                    card_name@,
                    all[k],
                    all[p],
                ) by {
                    let q = choose|q: int| 0 <= q < from.len() && from[q] == k;
                    assert(matching@[q]@ == all[k]);
                }
                assert forall|k: int|
                    0 <= k < p && available(card_name@, #[trigger] all[k]) implies better(
                    card_name@,
                    all[p],
                    all[k],
                ) by {
                    let q = choose|q: int| 0 <= q < from.len() && from[q] == k;
                    assert(matching@[q]@ == all[k]);
                    if q >= w {
                        assert(from[w] <= from[q]);
                    }
                }
            }
        },
        None => {
            proof {
                assert forall|k: int| 0 <= k < all.len() implies !available(
                    card_name@,
                    #[trigger] all[k],
                ) by {
                    if available(card_name@, all[k]) {
                        assert(from.contains(k));
                    }
                }
            }
        },
    }
    results
}

} // verus!
