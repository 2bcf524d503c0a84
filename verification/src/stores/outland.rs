//! outland.no

use crate::stores::{listings, Listing, Store, StoreResult};
use crate::text::{before_suffix, ends_with, eq_ignore_ascii_case, joined, same_ignoring_case};
use vstd::prelude::*;

verus! {

pub const GRAPHQL_URL: &'static str = "https://www.outland.no/api/graphql";

pub const STORE_NAME: &'static str = "outland.no";

pub const STORE_BASE_URL: &'static str = "https://www.outland.no";

pub const TIMEOUT_SECS: u64 = 30;

pub const CATEGORY_UID: &'static str = "MTI1MA==";

/// Products per page of a search.
pub const PAGE_SIZE: u32 = 48;

pub struct Outland;

impl Outland {
    pub fn new() -> (store: Self)
        ensures
            store.store_name() == STORE_NAME@,
            store.timeout() == TIMEOUT_SECS,
    {
        Outland
    }
}

impl Store for Outland {
    open spec fn store_name(&self) -> Seq<char> {
        STORE_NAME@
    }

    open spec fn timeout(&self) -> u64 {
        TIMEOUT_SECS
    }

    open spec fn keys(&self) -> Seq<Seq<char>> {
        seq![STORE_NAME@]
    }

    fn name(&self) -> &str {
        STORE_NAME
    }

    fn timeout_secs(&self) -> u64 {
        TIMEOUT_SECS
    }

    fn cache_keys(&self) -> Vec<String> {
        crate::stores::one_key(STORE_NAME)
    }
}

/// The variables of one page of a search.
pub struct ProductListVariables {
    pub page_size: u32,
    pub current_page: u32,
    pub category_uid: String,
    pub in_stock: String,
    pub relevance: String,
    pub search: String,
    pub only_items: bool,
}

/// The variables of one page of a search: single cards in stock, best match first.
pub fn build_request(search_term: &str, page: u32) -> (v: ProductListVariables)
    ensures
        v.page_size == PAGE_SIZE,
        v.current_page == page,
        v.category_uid@ == CATEGORY_UID@,
        v.in_stock@ == "1"@,
        v.relevance@ == "DESC"@,
        v.search@ == search_term@,
        !v.only_items,
{
    ProductListVariables {
        page_size: PAGE_SIZE,
        current_page: page,
        category_uid: CATEGORY_UID.to_owned(),
        in_stock: "1".to_owned(),
        relevance: "DESC".to_owned(),
        search: search_term.to_owned(),
        only_items: false,
    }
}

/// The page to fetch after `page`, if there is one.
pub fn next_page(page: u32, total_pages: u32) -> (next: Option<u32>)
    ensures
        next == if page < total_pages {
            Some((page + 1) as u32)
        } else {
            None
        },
{
    if page >= total_pages {
        None
    } else {
        Some(page + 1)
    }
}

/// A product of the store.
pub struct ProductItem {
    pub url_key: String,
    pub name: String,
    /// Price in oere.
    pub price: u32,
}

/// A product name without the suffix of single cards.
pub open spec fn without_suffix(name: Seq<char>) -> Seq<char> {
    if ends_with(name, " (Enkeltkort)"@) {
        name.take(name.len() - " (Enkeltkort)"@.len())
    } else if ends_with(name, " (enkeltkort)"@) {
        name.take(name.len() - " (enkeltkort)"@.len())
    } else {
        name
    }
}

/// A product name without the suffix of single cards.
pub fn strip_enkeltkort(name: &str) -> (stripped: String)
    ensures
        stripped@ == without_suffix(name@),
{
    if let Some(s) = before_suffix(name, " (Enkeltkort)") {
        return s;
    }
    if let Some(s) = before_suffix(name, " (enkeltkort)") {
        return s;
    }
    name.to_owned()
}

/// The product is the card.
pub open spec fn is_match(searched: Seq<char>, product: Seq<char>) -> bool {
    same_ignoring_case(searched, without_suffix(product))
}

/// Is the product the card?
pub fn names_match(searched: &str, product_name: &str) -> (b: bool)
    ensures
        b == is_match(searched@, product_name@),
{
    eq_ignore_ascii_case(searched, &strip_enkeltkort(product_name))
}

/// The first product, from `from` on, that is the card.
pub open spec fn first_match(card: Seq<char>, items: Seq<ProductItem>, from: int) -> Option<int>
    decreases items.len() - from,
{
    if from < 0 || from >= items.len() {
        None
    } else if is_match(card, items[from].name@) {
        Some(from)
    } else {
        first_match(card, items, from + 1)
    }
}

/// The result of a search: the first product that is the card.
pub open spec fn chosen(card: Seq<char>, items: Seq<ProductItem>) -> Seq<Listing> {
    match first_match(card, items, 0) {
        Some(i) => seq![
            Listing {
                store: STORE_NAME@,
                card,
                price: items[i].price,
                url: STORE_BASE_URL@ + "/"@ + items[i].url_key@,
            },
        ],
        None => Seq::empty(),
    }
}

/// The result of a search: the first product that is the card.
pub fn choose_results(card_name: &str, items: &Vec<ProductItem>) -> (results: Vec<StoreResult>)
    ensures
        listings(results@) == chosen(card_name@, items@),
{
    let mut results: Vec<StoreResult> = Vec::new();
    let mut i: usize = 0;
    while i < items.len()
        invariant
            i <= items@.len(),
            results@.len() == 0,
            first_match(card_name@, items@, 0) == first_match(card_name@, items@, i as int),
        decreases items@.len() - i,
    {
        if names_match(card_name, &items[i].name) {
            results.push(
                StoreResult {
                    store_name: STORE_NAME.to_owned(),
                    card_name: card_name.to_owned(),
                    price: items[i].price,
                    url: joined(&joined(STORE_BASE_URL, "/"), &items[i].url_key),
                },
            );
            assert(listings(results@) =~= chosen(card_name@, items@));
            return results;
        }
        i += 1;
    }
    assert(listings(results@) =~= chosen(card_name@, items@));
    results
}

} // verus!
