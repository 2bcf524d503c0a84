//! cardmarket.com

use crate::percent::{url_encoded, urlencoding};
use crate::encoding::{base64_bytes, decode_base64, utf8_text};
use crate::html::{
    concat, concat_texts, document_elements, document_select, elems, inner_text, opt_text,
    page_rows, row_views, scrape_rows, trimmed_text, Elem, Query, Row, RowView,
};
use crate::shipping::{
    add_vat, blacklisted, capped, eur_to_nok, is_blacklisted, rounded, EUR_TO_NOK,
    VAT_MULTIPLIER_PERCENT,
};
use crate::stores::page::{cell, cell_at};
use crate::stores::price::{fits, opt_nat, priced, to_price, ScrapeError};
use crate::stores::{listings, title_contains, titled, Listing, Store, StoreResult};
use crate::text::{
    begins, contains, find_from, from_chars, has, is_digit, joined, keep_digits, lowercase,
    number_class, number_prefix, parse_number, parse_u32, position, replace, replaced, same_text,
    slice, split_at_first, split_once, starts_with, take_while, texts, to_chars, trim, trimmed,
};
use vstd::prelude::*;
use vstd::utf8::{decode_utf8, valid_utf8};

verus! {

pub const CARD_URL: &'static str = "https://www.cardmarket.com/en/Magic/Cards";

pub const BASE_URL: &'static str = "https://www.cardmarket.com";

pub const STORE_PREFIX: &'static str = "cardmarket.com";

pub const STORE_PREFIX_INT: &'static str = "cardmarket-int.com";

pub const STORE_PREFIX_INT_PRIVATE: &'static str = "cardmarket-int-private.com";

pub const AJAX_URL: &'static str =
    "https://www.cardmarket.com/en/Magic/AjaxAction/Metacard_LoadMoreArticles";

pub const TIMEOUT_SECS: u64 = 30;

pub const MAX_LOAD_MORE_PAGES: u32 = 10;

/// How many blocks before the store is given up for the batch.
pub const BLOCK_LIMIT: u32 = 3;

/// The filter of the load-more requests for professional sellers.
pub const INT_FILTER: &'static str = "{\"sellerStatus\":[1,2],\"idLanguage\":{\"1\":1}}";

/// The filter of the load-more requests for private sellers.
pub const PRIVATE_FILTER: &'static str = "{\"sellerStatus\":[0],\"idLanguage\":{\"1\":1}}";

/// The snippet that a user pastes into the browser console to copy the sellers
/// of a page.
pub const RESCUE_JS_SNIPPET: &'static str = "copy(JSON.stringify([...document.querySelectorAll('.article-row')].map(row=>{const a=row.querySelector('.seller-name a');const p=row.querySelector('.col-offer span.color-primary.fw-bold,.col-offer span.color-primary');const c=row.querySelector('.col-offer span.item-count');const h=a?.getAttribute('href')||'';return {n:a?.textContent?.trim()||'',p:p?.textContent?.trim()||'',c:parseInt(c?.textContent?.trim())||1,u:h.startsWith('http')?h:'https://www.cardmarket.com'+h};})));";

/// The snippet that copies the sellers of a page.
pub fn rescue_js_snippet() -> (snippet: &'static str)
    ensures
        snippet@ == RESCUE_JS_SNIPPET@,
{
    RESCUE_JS_SNIPPET
}

// Prices

/// The cents that the digits after the separator stand for: the first two count,
/// and a single one stands for tens.
pub open spec fn cents(frac: Seq<char>) -> Option<u32> {
    let digits = frac.filter(|c: char| is_digit(c));
    if digits.len() == 0 {
        Some(0)
    } else if digits.len() == 1 {
        match parse_number(digits) {
            Some(d) => Some((d * 10) as u32),
            None => None,
        }
    } else {
        parse_number(digits.take(2))
    }
}

/// Whole euros and cents as cents.
pub open spec fn in_cents(whole: Option<u32>, frac: Option<u32>) -> Option<nat> {
    match (whole, frac) {
        (Some(w), Some(f)) if f < 100 => Some((w * 100 + f) as nat),
        _ => None,
    }
}

/// The whole euros in front of a comma: all digits count, none means zero.
pub open spec fn euros(whole: Seq<char>) -> Option<u32> {
    let digits = whole.filter(|c: char| is_digit(c));
    if digits.len() == 0 {
        Some(0)
    } else {
        parse_number(digits)
    }
}

/// The amount in cents of a text such as "1,50 €", "0.02 EUR" or "3".
pub open spec fn eur_amount(raw: Seq<char>) -> Option<nat> {
    let cleaned = trim(
        replace(replace(replace(trim(raw), "€"@, ""@), "EUR"@, ""@), "eur"@, ""@),
    );
    let number = take_while(cleaned, number_class(true, true));
    if number.len() == 0 {
        None
    } else {
        match split_once(number, ',') {
            Some((whole, frac)) => in_cents(euros(whole), cents(frac)),
            None => match split_once(number, '.') {
                Some((whole, frac)) => in_cents(parse_number(whole), cents(frac)),
                None => in_cents(parse_number(number), Some(0)),
            },
        }
    }
}

fn find_cents(frac: &Vec<char>) -> (n: Option<u32>)
    ensures
        n == cents(frac@),
{
    let digits = keep_digits(frac);
    if digits.len() == 0 {
        Some(0)
    } else if digits.len() == 1 {
        match parse_u32(&digits) {
            Some(d) => {
                proof {
                    lemma_one_digit(digits@);
                }
                Some(d * 10)
            },
            None => None,
        }
    } else {
        let two = slice(&digits, 0, 2);
        assert(two@ =~= digits@.take(2));
        parse_u32(&two)
    }
}

/// One digit is below ten.
proof fn lemma_one_digit(s: Seq<char>)
    requires
        s.len() == 1,
    ensures
        parse_number(s) matches Some(d) ==> d <= 9,
{
    if s[0] == '+' {
        assert(s.skip(1).len() == 0);
    } else if crate::text::all_digits(s) {
        assert(is_digit(s[0]));
        assert(s.drop_last() =~= Seq::empty());
        reveal_with_fuel(crate::text::digits_value, 2);
    }
}

fn find_euros(whole: &Vec<char>) -> (n: Option<u32>)
    ensures
        n == euros(whole@),
{
    let digits = keep_digits(whole);
    if digits.len() == 0 {
        Some(0)
    } else {
        parse_u32(&digits)
    }
}

fn sum_cents(whole: Option<u32>, frac: Option<u32>) -> (n: Option<u64>)
    ensures
        opt_nat(n) == in_cents(whole, frac),
{
    match (whole, frac) {
        (Some(w), Some(f)) => {
            if f < 100 {
                Some(w as u64 * 100 + f as u64)
            } else {
                None
            }
        },
        _ => None,
    }
}

fn find_eur_amount(raw: &str) -> (n: Option<u64>)
    ensures
        opt_nat(n) == eur_amount(raw@),
{
    proof {
        reveal_strlit("€");
        reveal_strlit("EUR");
        reveal_strlit("eur");
    }
    let nothing = to_chars("");
    let v = replaced(&trimmed(&to_chars(raw)), &to_chars("€"), &nothing);
    let v = replaced(&v, &to_chars("EUR"), &nothing);
    let v = trimmed(&replaced(&v, &to_chars("eur"), &nothing));
    let number = number_prefix(&v, true, true);
    if number.len() == 0 {
        return None;
    }
    match split_at_first(&number, ',') {
        Some((whole, frac)) => sum_cents(find_euros(&whole), find_cents(&frac)),
        None => match split_at_first(&number, '.') {
            Some((whole, frac)) => sum_cents(parse_u32(&whole), find_cents(&frac)),
            None => sum_cents(parse_u32(&number), Some(0)),
        },
    }
}

/// A price text such as "1,50 €" in cents.
pub fn parse_eur_price(raw: &str) -> (price: Option<u32>)
    requires
        fits(eur_amount(raw@)),
    ensures
        price == priced(eur_amount(raw@)),
{
    to_price(find_eur_amount(raw))
}

// Sellers

/// An offer of a seller.
pub struct SellerEntry {
    pub name: String,
    pub price_eur_cents: u32,
    pub item_count: u32,
    pub url: String,
}

/// A `SellerEntry` as plain text and numbers.
pub struct Seller {
    pub name: Seq<char>,
    pub cents: nat,
    pub count: u32,
    pub url: Seq<char>,
}

impl View for SellerEntry {
    type V = Seller;

    open spec fn view(&self) -> Seller {
        Seller {
            name: self.name@,
            cents: self.price_eur_cents as nat,
            count: self.item_count,
            url: self.url@,
        }
    }
}

pub open spec fn sellers(v: Seq<SellerEntry>) -> Seq<Seller> {
    v.map_values(|e: SellerEntry| e@)
}

/// The cells of an offer: the seller's link, the price and the number of items.
pub open spec fn row_queries() -> Seq<Query> {
    seq![
        Query { css: "span.seller-name a", attr: "href" },
        Query { css: "div.col-offer span.color-primary.fw-bold", attr: "" },
        Query { css: "div.col-offer span.item-count", attr: "" },
    ]
}

fn queries() -> (q: Vec<Query>)
    ensures
        q@ == row_queries(),
{
    let q = vec![
        Query { css: "span.seller-name a", attr: "href" },
        Query { css: "div.col-offer span.color-primary.fw-bold", attr: "" },
        Query { css: "div.col-offer span.item-count", attr: "" },
    ];
    assert(q@ =~= row_queries());
    q
}

/// A link of the store as a full address; nothing stays nothing.
pub open spec fn full_url(href: Option<Seq<char>>) -> Seq<char> {
    match href {
        Some(h) => if starts_with(h, "http"@) {
            h
        } else {
            BASE_URL@ + h
        },
        None => Seq::empty(),
    }
}

/// The number of items of an offer, one if the row states none.
pub open spec fn items(count: Option<Elem>) -> u32 {
    match count {
        Some(e) => match parse_number(inner_text(e)) {
            Some(n) => n,
            None => 1,
        },
        None => 1,
    }
}

/// The offer in a row, if it shows one.
pub open spec fn seller_in(row: RowView) -> Option<Seller> {
    match (cell(row, 0), cell(row, 1)) {
        (Some(link), Some(price)) => {
            let name = inner_text(link);
            let url = full_url(link.attr);
            match eur_amount(concat(price.texts)) {
                Some(cents) if name.len() > 0 && url.len() > 0 => Some(
                    Seller { name, cents, count: items(cell(row, 2)), url },
                ),
                _ => None,
            }
        },
        _ => None,
    }
}

/// The offers of all rows, in order.
pub open spec fn sellers_in(rows: Seq<RowView>) -> Seq<Seller>
    decreases rows.len(),
{
    if rows.len() == 0 {
        Seq::empty()
    } else {
        match seller_in(rows.last()) {
            Some(s) => sellers_in(rows.drop_last()).push(s),
            None => sellers_in(rows.drop_last()),
        }
    }
}

/// Every price fits 32 bits.
pub open spec fn all_fit(s: Seq<Seller>) -> bool {
    forall|i: int| 0 <= i < s.len() ==> (#[trigger] s[i]).cents <= u32::MAX
}

/// What reading the rows of a page gives.
pub open spec fn read_sellers(rows: Seq<RowView>) -> Result<Seq<Seller>, ScrapeError> {
    if all_fit(sellers_in(rows)) {
        Ok(sellers_in(rows))
    } else {
        Err(ScrapeError::PriceTooLarge)
    }
}

pub open spec fn sellers_view(r: Result<Vec<SellerEntry>, ScrapeError>) -> Result<
    Seq<Seller>,
    ScrapeError,
> {
    match r {
        Ok(v) => Ok(sellers(v@)),
        Err(e) => Err(e),
    }
}

fn find_full_url(href: &Option<String>) -> (url: String)
    ensures
        url@ == full_url(opt_text(*href)),
{
    match href {
        Some(h) => {
            if begins(h, "http") {
                h.clone()
            } else {
                joined(BASE_URL, h)
            }
        },
        None => String::new(),
    }
}

/// The offer in a row, its price not yet known to fit, and the price.
fn read_seller(row: &Row) -> (found: Option<(SellerEntry, u64)>)
    ensures
        match seller_in(row@) {
            Some(s) => found matches Some((e, n)) && n == s.cents && e@ == (Seller {
                cents: e.price_eur_cents as nat,
                ..s
            }) && (n <= u32::MAX ==> e.price_eur_cents == n),
            None => found is None,
        },
{
    let link = match cell_at(row, 0) {
        Some(e) => e,
        None => {
            return None;
        },
    };
    let price = match cell_at(row, 1) {
        Some(e) => e,
        None => {
            return None;
        },
    };
    let name = trimmed_text(link);
    let url = find_full_url(&link.attr);
    if name.as_str().is_empty() || url.as_str().is_empty() {
        return None;
    }
    match find_eur_amount(&concat_texts(&price.texts)) {
        Some(n) => {
            let item_count: u32 = match cell_at(row, 2) {
                Some(e) => match parse_u32(&to_chars(&trimmed_text(e))) {
                    Some(k) => k,
                    None => 1,
                },
                None => 1,
            };
            let price_eur_cents: u32 = if n <= u32::MAX as u64 {
                n as u32
            } else {
                0
            };
            Some((SellerEntry { name, price_eur_cents, item_count, url }, n))
        },
        None => None,
    }
}

/// The offers in the rows of a page.
pub fn sellers_from_rows(rows: &Vec<Row>) -> (found: Result<Vec<SellerEntry>, ScrapeError>)
    ensures
        sellers_view(found) == read_sellers(row_views(rows@)),
{
    let ghost views = row_views(rows@);
    let mut found: Vec<SellerEntry> = Vec::new();
    let mut large: bool = false;
    let mut i: usize = 0;
    proof {
        assert(views.take(0) =~= Seq::empty());
        assert(sellers(found@) =~= Seq::empty());
    }
    while i < rows.len()
        invariant
            views == row_views(rows@),
            i <= rows@.len(),
            large == !all_fit(sellers_in(views.take(i as int))),
            !large ==> sellers(found@) == sellers_in(views.take(i as int)),
        decreases rows@.len() - i,
    {
        let ghost before = sellers_in(views.take(i as int));
        proof {
            let t = views.take(i + 1);
            assert(t.drop_last() =~= views.take(i as int));
            assert(t.last() == rows@[i as int]@);
        }
        if let Some((entry, n)) = read_seller(&rows[i]) {
            let ghost s = seller_in(rows@[i as int]@)->0;
            let ghost next = before.push(s);
            if n > u32::MAX as u64 {
                proof {
                    assert(next[before.len() as int].cents > u32::MAX);
                }
                large = true;
            } else {
                let ghost f0 = found@;
                found.push(entry);
                proof {
                    assert(entry@ == s);
                    assert(sellers(found@) =~= sellers(f0).push(s));
                    if all_fit(before) {
                        assert(all_fit(next));
                    } else {
                        let k = choose|k: int|
                            0 <= k < before.len() && !((#[trigger] before[k]).cents <= u32::MAX);
                        assert(next[k].cents > u32::MAX);
                    }
                }
            }
        }
        i += 1;
    }
    assert(views.take(i as int) =~= views);
    if large {
        Err(ScrapeError::PriceTooLarge)
    } else {
        Ok(found)
    }
}

/// The offers on a page.
pub open spec fn page_sellers(html: Seq<char>) -> Result<Seq<Seller>, ScrapeError> {
    match page_rows(html, false, "div.article-row"@, ""@, row_queries()) {
        Some(rows) => read_sellers(rows),
        None => Err(ScrapeError::BadSelector),
    }
}

/// The offers on a page.
pub fn try_extract_sellers(html: &str) -> (found: Result<Vec<SellerEntry>, ScrapeError>)
    ensures
        sellers_view(found) == page_sellers(html@),
{
    match scrape_rows(html, false, "div.article-row", "", &queries()) {
        Some(rows) => sellers_from_rows(&rows),
        None => Err(ScrapeError::BadSelector),
    }
}

// Card pages

/// Why a page is not taken for the card's page.
pub enum CardPageError {
    /// A selector is not valid CSS.
    BadSelector,
    /// A price on the page is too large for its type.
    PriceTooLarge,
    /// There is no heading and no offer: an error page rather than a card page.
    NoHeading,
    /// The heading, given here, names another card.
    HeadingMismatch(String),
    /// The heading is empty and there is no offer.
    EmptyHeading,
}

/// Whether a page with such a heading and so many offers is the card's page.
pub open spec fn page_verdict(card: Seq<char>, heading: Option<Seq<char>>, offers: nat) -> Result<
    (),
    CardVerdict,
> {
    let text = match heading {
        Some(h) => h,
        None => Seq::empty(),
    };
    if heading is None && offers == 0 {
        Err(CardVerdict::NoHeading)
    } else if text.len() > 0 && !titled(card, text) {
        Err(CardVerdict::HeadingMismatch)
    } else if offers == 0 && text.len() == 0 {
        Err(CardVerdict::EmptyHeading)
    } else {
        Ok(())
    }
}

/// The ways in which a page can fail to be the card's page.
#[derive(Debug, PartialEq, Eq, Structural, Clone, Copy)]
pub enum CardVerdict {
    NoHeading,
    HeadingMismatch,
    EmptyHeading,
}

/// Is a page with such a heading and so many offers the card's page?
pub fn judge_page(card_name: &str, heading: &Option<String>, offers: usize) -> (verdict: Result<
    (),
    CardVerdict,
>)
    ensures
        verdict == page_verdict(card_name@, opt_text(*heading), offers as nat),
{
    match heading {
        None => {
            if offers == 0 {
                Err(CardVerdict::NoHeading)
            } else {
                Ok(())
            }
        },
        Some(h) => {
            if !h.as_str().is_empty() && !title_contains(card_name, h) {
                Err(CardVerdict::HeadingMismatch)
            } else if offers == 0 && h.as_str().is_empty() {
                Err(CardVerdict::EmptyHeading)
            } else {
                Ok(())
            }
        },
    }
}

/// The heading of a page among its `h1` elements.
pub open spec fn heading_of(els: Seq<Elem>) -> Option<Seq<char>> {
    if els.len() == 0 {
        None
    } else {
        Some(inner_text(els[0]))
    }
}

/// The offers on the card's page, or why the page is not taken for it.
pub fn parse_card_page(card_name: &str, html: &str) -> (found: Result<
    Vec<SellerEntry>,
    CardPageError,
>)
    ensures
        match page_sellers(html@) {
            Err(ScrapeError::BadSelector) => found matches Err(CardPageError::BadSelector),
            Err(ScrapeError::PriceTooLarge) => found matches Err(CardPageError::PriceTooLarge),
            Ok(offers) => match document_elements(html@, "h1"@, ""@) {
                None => found matches Err(CardPageError::BadSelector),
                Some(els) => match page_verdict(card_name@, heading_of(els), offers.len()) {
                    Ok(_) => found matches Ok(v) && sellers(v@) == offers,
                    Err(CardVerdict::NoHeading) => found matches Err(CardPageError::NoHeading),
                    Err(CardVerdict::HeadingMismatch) => found matches Err(
                        CardPageError::HeadingMismatch(h),
                    ) && Some(h@) == heading_of(els),
                    Err(CardVerdict::EmptyHeading) => found matches Err(
                        CardPageError::EmptyHeading,
                    ),
                },
            },
        },
{
    let entries = match try_extract_sellers(html) {
        Ok(v) => v,
        Err(ScrapeError::BadSelector) => {
            return Err(CardPageError::BadSelector);
        },
        Err(ScrapeError::PriceTooLarge) => {
            return Err(CardPageError::PriceTooLarge);
        },
    };
    let els = match document_select(html, "h1", "") {
        Some(els) => els,
        None => {
            return Err(CardPageError::BadSelector);
        },
    };
    let heading: Option<String> = if els.len() == 0 {
        None
    } else {
        assert(elems(els@)[0] == els@[0]@);
        Some(trimmed_text(&els[0]))
    };
    assert(sellers(entries@).len() == entries@.len());
    match judge_page(card_name, &heading, entries.len()) {
        Ok(_) => Ok(entries),
        Err(CardVerdict::NoHeading) => Err(CardPageError::NoHeading),
        Err(CardVerdict::EmptyHeading) => Err(CardPageError::EmptyHeading),
        Err(CardVerdict::HeadingMismatch) => match heading {
            Some(h) => Err(CardPageError::HeadingMismatch(h)),
            None => Err(CardPageError::NoHeading),
        },
    }
}

/// The value of the first of the elements that were found.
pub open spec fn first_value(els: Option<Seq<Elem>>) -> Option<Seq<char>> {
    match els {
        Some(v) => if v.len() > 0 {
            v[0].attr
        } else {
            None
        },
        None => None,
    }
}

fn find_value(html: &str, css: &str) -> (value: Option<String>)
    ensures
        opt_text(value) == first_value(document_elements(html@, css@, "value"@)),
{
    match document_select(html, css, "value") {
        Some(els) => {
            if els.len() > 0 {
                assert(elems(els@)[0] == els@[0]@);
                match &els[0].attr {
                    Some(v) => Some(v.clone()),
                    None => None,
                }
            } else {
                None
            }
        },
        None => None,
    }
}

/// The token that load-more requests carry, if the page holds one.
pub fn extract_csrf(html: &str) -> (token: Option<String>)
    ensures
        opt_text(token) == first_value(
            document_elements(html@, "input[name=__cmtkn]"@, "value"@),
        ),
{
    find_value(html, "input[name=__cmtkn]")
}

/// The card's number on the store, if the page holds one.
pub fn extract_metacard_id(html: &str) -> (id: Option<u32>)
    ensures
        id == (match first_value(document_elements(html@, "input[name=idMetacard]"@, "value"@)) {
            Some(v) => parse_number(v),
            None => None,
        }),
{
    match find_value(html, "input[name=idMetacard]") {
        Some(v) => parse_u32(&to_chars(&v)),
        None => None,
    }
}

// Load more

/// What stands between `<rows>` and the `</rows>` that follows it.
pub open spec fn rows_in(xml: Seq<char>) -> Option<Seq<char>> {
    match find_from(xml, "<rows>"@, 0) {
        Some(start) => {
            let rest = xml.skip(start + "<rows>"@.len());
            match find_from(rest, "</rows>"@, 0) {
                Some(end) => Some(rest.take(end)),
                None => None,
            }
        },
        None => None,
    }
}

/// The encoded content of a load-more response.
pub fn extract_ajax_rows(xml: &str) -> (rows: Option<String>)
    ensures
        opt_text(rows) == rows_in(xml@),
{
    let v = to_chars(xml);
    let open = to_chars("<rows>");
    match position(&v, &open) {
        Some(start) => {
            assert(start + open.len() <= v.len());
            let rest = slice(&v, start + open.len(), v.len());
            assert(rest@ =~= xml@.skip(start + open@.len()));
            match position(&rest, &to_chars("</rows>")) {
                Some(end) => {
                    let inner = slice(&rest, 0, end);
                    assert(inner@ =~= rest@.take(end as int));
                    Some(from_chars(&inner))
                },
                None => None,
            }
        },
        None => None,
    }
}

/// Why a load-more response could not be read.
#[derive(Debug, PartialEq, Eq, Structural, Clone, Copy)]
pub enum LoadMoreError {
    /// The content is not Base64.
    BadBase64,
    /// The content is not UTF-8.
    BadUtf8,
    /// A selector is not valid CSS.
    BadSelector,
    /// A price is too large for its type.
    PriceTooLarge,
}

/// The page in a load-more response: its decoded content, or an empty page.
pub open spec fn decoded_page(response: Seq<char>) -> Result<Seq<char>, LoadMoreError> {
    match rows_in(response) {
        None => Ok(Seq::empty()),
        Some(rows) => match base64_bytes(rows) {
            None => Err(LoadMoreError::BadBase64),
            Some(bytes) => if valid_utf8(bytes) {
                Ok(decode_utf8(bytes))
            } else {
                Err(LoadMoreError::BadUtf8)
            },
        },
    }
}

/// The page in a load-more response.
pub fn decode_page(response: &str) -> (page: Result<String, LoadMoreError>)
    ensures
        match decoded_page(response@) {
            Ok(text) => page matches Ok(p) && p@ == text,
            Err(e) => page == Err::<String, LoadMoreError>(e),
        },
{
    match extract_ajax_rows(response) {
        None => Ok(String::new()),
        Some(rows) => match decode_base64(&rows) {
            None => Err(LoadMoreError::BadBase64),
            Some(bytes) => match utf8_text(bytes) {
                Some(text) => Ok(text),
                None => Err(LoadMoreError::BadUtf8),
            },
        },
    }
}

/// The offers in a load-more response.
pub fn load_more_sellers(response: &str) -> (found: Result<Vec<SellerEntry>, LoadMoreError>)
    ensures
        match decoded_page(response@) {
            Err(e) => found matches Err(f) && f == e,
            Ok(page) => match page_sellers(page) {
                Ok(offers) => found matches Ok(v) && sellers(v@) == offers,
                Err(ScrapeError::BadSelector) => found matches Err(LoadMoreError::BadSelector),
                Err(ScrapeError::PriceTooLarge) => found matches Err(LoadMoreError::PriceTooLarge),
            },
        },
{
    match decode_page(response) {
        Err(e) => Err(e),
        Ok(page) => match try_extract_sellers(&page) {
            Ok(v) => Ok(v),
            Err(ScrapeError::BadSelector) => Err(LoadMoreError::BadSelector),
            Err(ScrapeError::PriceTooLarge) => Err(LoadMoreError::PriceTooLarge),
        },
    }
}

/// The load-more page to ask for after `page` brought so many new offers.
pub fn next_load_more(page: u32, new_offers: usize) -> (next: Option<u32>)
    ensures
        next == if new_offers > 0 && page + 1 < MAX_LOAD_MORE_PAGES {
            Some((page + 1) as u32)
        } else {
            None
        },
{
    if new_offers > 0 && page < MAX_LOAD_MORE_PAGES - 1 {
        Some(page + 1)
    } else {
        None
    }
}

// Addresses

/// The address of a card's page.
pub open spec fn card_address(slug: Seq<char>, filter: Seq<char>) -> Seq<char> {
    CARD_URL@ + "/"@ + slug + "?"@ + filter + "&language=1"@
}

fn find_card_address(slug: &str, filter: &str) -> (url: String)
    ensures
        url@ == card_address(slug@, filter@),
{
    let url = joined(&joined(&joined(CARD_URL, "/"), slug), "?");
    joined(&joined(&url, filter), "&language=1")
}

/// The card's page with Norwegian sellers.
pub fn norwegian_url(slug: &str) -> (url: String)
    ensures
        url@ == card_address(slug@, "sellerCountry=24"@),
{
    find_card_address(slug, "sellerCountry=24")
}

/// The card's page with professional sellers.
pub fn professional_url(slug: &str) -> (url: String)
    ensures
        url@ == card_address(slug@, "sellerType=1,2"@),
{
    find_card_address(slug, "sellerType=1,2")
}

/// The card's page with private sellers.
pub fn private_url(slug: &str) -> (url: String)
    ensures
        url@ == card_address(slug@, "sellerType=0"@),
{
    find_card_address(slug, "sellerType=0")
}

/// A card's name in a query.
pub fn percent_encode_card_name(name: &str) -> (out: String)
    ensures
        out@ == url_encoded(name@),
{
    urlencoding(name)
}

/// A seller's offers of a card.
pub open spec fn offer_address(seller_url: Seq<char>, card: Seq<char>) -> Seq<char> {
    seller_url + "/Offers/Singles?name="@ + url_encoded(card) + "&sortBy=name_asc"@
}

/// The address of a seller's offers of a card, from that of the seller's profile.
pub fn make_cardmarket_offer_url(seller_url: &str, card_name: &str) -> (url: String)
    ensures
        url@ == offer_address(seller_url@, card_name@),
{
    let url = joined(seller_url, "/Offers/Singles?name=");
    let url = joined(&url, &percent_encode_card_name(card_name));
    joined(&url, "&sortBy=name_asc")
}

// Results

/// The store prefix of a kind of seller.
pub open spec fn prefix_for(is_international: bool, is_private: bool) -> Seq<char> {
    if is_private {
        STORE_PREFIX_INT_PRIVATE@
    } else if is_international {
        STORE_PREFIX_INT@
    } else {
        STORE_PREFIX@
    }
}

/// The store prefix of a kind of seller.
pub fn store_prefix_from_flags(is_international: bool, is_private: bool) -> (prefix: &'static str)
    ensures
        prefix@ == prefix_for(is_international, is_private),
{
    if is_private {
        STORE_PREFIX_INT_PRIVATE
    } else if is_international {
        STORE_PREFIX_INT
    } else {
        STORE_PREFIX
    }
}

/// The price in oere of a price in cents: converted, and with VAT for
/// international sellers.
pub open spec fn local_price(cents: nat, is_international: bool) -> u32 {
    let nok = capped(cents * EUR_TO_NOK);
    if is_international {
        capped(rounded(nok * VAT_MULTIPLIER_PERCENT, 100)) as u32
    } else {
        nok as u32
    }
}

/// The listings of the offers: those with items in stock, of sellers that are
/// not blacklisted.
pub open spec fn offer_listings(
    offers: Seq<Seller>,
    card: Seq<char>,
    is_international: bool,
    is_private: bool,
) -> Seq<Listing>
    decreases offers.len(),
{
    if offers.len() == 0 {
        Seq::empty()
    } else {
        let rest = offer_listings(offers.drop_last(), card, is_international, is_private);
        let e = offers.last();
        if e.count > 0 && !blacklisted(e.name) {
            rest.push(
                Listing {
                    store: prefix_for(is_international, is_private) + ": "@ + e.name,
                    card,
                    price: local_price(e.cents, is_international),
                    url: offer_address(e.url, card),
                },
            )
        } else {
            rest
        }
    }
}

/// The results of the offers, with prices in oere.
pub fn sellers_to_results(
    entries: &Vec<SellerEntry>,
    card_name: &str,
    is_international: bool,
    is_private: bool,
) -> (results: Vec<StoreResult>)
    ensures
        listings(results@) == offer_listings(
            sellers(entries@),
            card_name@,
            is_international,
            is_private,
        ),
{
    let ghost all = sellers(entries@);
    let prefix = store_prefix_from_flags(is_international, is_private);
    let mut results: Vec<StoreResult> = Vec::new();
    let mut i: usize = 0;
    proof {
        assert(all.take(0) =~= Seq::empty());
        assert(listings(results@) =~= Seq::empty());
    }
    while i < entries.len()
        invariant
            all == sellers(entries@),
            prefix@ == prefix_for(is_international, is_private),
            i <= entries@.len(),
            listings(results@) == offer_listings(
                all.take(i as int),
                card_name@,
                is_international,
                is_private,
            ),
        decreases entries@.len() - i,
    {
        let e = &entries[i];
        proof {
            let t = all.take(i + 1);
            assert(t.drop_last() =~= all.take(i as int));
            assert(t.last() == e@);
        }
        if e.item_count > 0 && !is_blacklisted(&e.name) {
            let nok: u32 = eur_to_nok(e.price_eur_cents);
            let price: u32 = if is_international {
                add_vat(nok)
            } else {
                nok
            };
            let ghost before = results@;
            let result = StoreResult {
                store_name: joined(&joined(prefix, ": "), &e.name),
                card_name: card_name.to_owned(),
                price,
                url: make_cardmarket_offer_url(&e.url, card_name),
            };
            results.push(result);
            assert(listings(results@) =~= listings(before).push(result@));
        }
        i += 1;
    }
    assert(all.take(i as int) =~= all);
    results
}

/// Whether a cache key stands for international and for private sellers; nothing
/// for another key.
pub open spec fn flags_of(sub_key: Seq<char>) -> Option<(bool, bool)> {
    if sub_key == STORE_PREFIX@ {
        Some((false, false))
    } else if sub_key == STORE_PREFIX_INT@ {
        Some((true, false))
    } else if sub_key == STORE_PREFIX_INT_PRIVATE@ {
        Some((true, true))
    } else {
        None
    }
}

/// Whether a cache key stands for international and for private sellers.
pub fn sub_flags(sub_key: &str) -> (flags: Option<(bool, bool)>)
    ensures
        flags == flags_of(sub_key@),
{
    if same_text(sub_key, STORE_PREFIX) {
        Some((false, false))
    } else if same_text(sub_key, STORE_PREFIX_INT) {
        Some((true, false))
    } else if same_text(sub_key, STORE_PREFIX_INT_PRIVATE) {
        Some((true, true))
    } else {
        None
    }
}

/// A seller as the browser snippet copies it: name, price text, items, address.
pub struct RescuedSeller {
    pub n: String,
    pub p: String,
    pub c: u32,
    pub u: String,
}

/// A `RescuedSeller` as plain text and numbers.
pub struct Rescued {
    pub n: Seq<char>,
    pub p: Seq<char>,
    pub c: u32,
    pub u: Seq<char>,
}

impl View for RescuedSeller {
    type V = Rescued;

    open spec fn view(&self) -> Rescued {
        Rescued { n: self.n@, p: self.p@, c: self.c, u: self.u@ }
    }
}

pub open spec fn rescued(v: Seq<RescuedSeller>) -> Seq<Rescued> {
    v.map_values(|r: RescuedSeller| r@)
}

/// The offers of the copied sellers: those with a name and a readable price.
pub open spec fn rescued_sellers(raw: Seq<Rescued>) -> Seq<Seller>
    decreases raw.len(),
{
    if raw.len() == 0 {
        Seq::empty()
    } else {
        let rest = rescued_sellers(raw.drop_last());
        let r = raw.last();
        match eur_amount(r.p) {
            Some(cents) if r.n.len() > 0 && r.p.len() > 0 => rest.push(
                Seller { name: r.n, cents, count: r.c, url: r.u },
            ),
            _ => rest,
        }
    }
}

/// Why copied sellers could not be read.
#[derive(Debug, PartialEq, Eq, Structural, Clone, Copy)]
pub enum RescueError {
    /// The key is none of the store's.
    UnknownSubKey,
    /// A price is too large for its type.
    PriceTooLarge,
}

/// The results of the sellers that the browser snippet copied.
pub fn results_from_rescue(raw: &Vec<RescuedSeller>, card_name: &str, sub_key: &str) -> (results:
    Result<Vec<StoreResult>, RescueError>)
    ensures
        match flags_of(sub_key@) {
            None => results matches Err(RescueError::UnknownSubKey),
            Some((abroad, private)) => if all_fit(rescued_sellers(rescued(raw@))) {
                results matches Ok(v) && listings(v@) == offer_listings(
                    rescued_sellers(rescued(raw@)),
                    card_name@,
                    abroad,
                    private,
                )
            } else {
                results matches Err(RescueError::PriceTooLarge)
            },
        },
{
    let (abroad, private) = match sub_flags(sub_key) {
        Some(flags) => flags,
        None => {
            return Err(RescueError::UnknownSubKey);
        },
    };
    let ghost all = rescued(raw@);
    let mut entries: Vec<SellerEntry> = Vec::new();
    let mut i: usize = 0;
    let mut large: bool = false;
    proof {
        assert(all.take(0) =~= Seq::empty());
        assert(sellers(entries@) =~= Seq::empty());
    }
    while i < raw.len()
        invariant
            all == rescued(raw@),
            i <= raw@.len(),
            large == !all_fit(rescued_sellers(all.take(i as int))),
            !large ==> sellers(entries@) == rescued_sellers(all.take(i as int)),
        decreases raw@.len() - i,
    {
        let r = &raw[i];
        let ghost before = rescued_sellers(all.take(i as int));
        proof {
            let t = all.take(i + 1);
            assert(t.drop_last() =~= all.take(i as int));
            assert(t.last() == r@);
        }
        if !r.n.as_str().is_empty() && !r.p.as_str().is_empty() {
            if let Some(n) = find_eur_amount(&r.p) {
                let ghost s = Seller { name: r.n@, cents: n as nat, count: r.c, url: r.u@ };
                let ghost next = before.push(s);
                if n > u32::MAX as u64 {
                    proof {
                        assert(next[before.len() as int].cents > u32::MAX);
                    }
                    large = true;
                } else {
                    let ghost e0 = entries@;
                    let entry = SellerEntry {
                        name: r.n.clone(),
                        price_eur_cents: n as u32,
                        item_count: r.c,
                        url: r.u.clone(),
                    };
                    entries.push(entry);
                    proof {
                        assert(entry@ == s);
                        assert(sellers(entries@) =~= sellers(e0).push(s));
                        if all_fit(before) {
                            assert(all_fit(next));
                        } else {
                            let k = choose|k: int|
                                0 <= k < before.len() && !((#[trigger] before[k]).cents
                                    <= u32::MAX);
                            assert(next[k].cents > u32::MAX);
                        }
                    }
                }
            }
        }
        i += 1;
    }
    assert(all.take(i as int) =~= all);
    if large {
        return Err(RescueError::PriceTooLarge);
    }
    Ok(sellers_to_results(&entries, card_name, abroad, private))
}

// Blocks and rescue

/// A page that still waits for the challenge to be solved.
pub open spec fn challenged(html: Seq<char>) -> bool {
    contains(html, "_cf_chl_opt"@) || contains(html, "challenges.cloudflare.com"@)
}

/// Does the page still wait for the challenge to be solved?
pub fn is_challenge(html: &str) -> (b: bool)
    ensures
        b == challenged(html@),
{
    has(html, "_cf_chl_opt") || has(html, "challenges.cloudflare.com")
}

/// Some message of an error tells of a challenge.
pub open spec fn tells_challenge(messages: Seq<Seq<char>>) -> bool {
    exists|i: int|
        0 <= i < messages.len() && contains(#[trigger] messages[i], "Cloudflare challenge"@)
}

/// Is the error, given by its messages, a challenge?
pub fn is_cloudflare_error(messages: &Vec<String>) -> (b: bool)
    ensures
        b == tells_challenge(texts(messages@)),
{
    let ghost all = texts(messages@);
    let mut i: usize = 0;
    while i < messages.len()
        invariant
            all == texts(messages@),
            i <= messages@.len(),
            forall|k: int|
                0 <= k < i ==> !contains(#[trigger] all[k], "Cloudflare challenge"@),
        decreases messages@.len() - i,
    {
        assert(all[i as int] == messages@[i as int]@);
        if has(&messages[i], "Cloudflare challenge") {
            return true;
        }
        i += 1;
    }
    false
}

/// A message tells that the browser is gone.
pub open spec fn tells_dead(message: Seq<char>) -> bool {
    let m = lowercase(message);
    contains(m, "connection is closed"@) || contains(m, "connection closed"@) || contains(
        m,
        "no such tab"@,
    ) || contains(m, "browser has been closed"@)
}

/// Does the message tell that the browser is gone?
pub fn is_browser_dead(message: &str) -> (b: bool)
    ensures
        b == tells_dead(message@),
{
    let m = message.to_lowercase();
    has(&m, "connection is closed") || has(&m, "connection closed") || has(&m, "no such tab")
        || has(&m, "browser has been closed")
}

/// A card and endpoint that a user has to fetch by hand.
#[derive(Debug, Clone)]
pub struct RescueItem {
    pub card_name: String,
    pub sub_key: String,
    pub url: String,
}

/// A `RescueItem` as plain text.
pub struct RescueTask {
    pub card: Seq<char>,
    pub sub_key: Seq<char>,
    pub url: Seq<char>,
}

impl View for RescueItem {
    type V = RescueTask;

    open spec fn view(&self) -> RescueTask {
        RescueTask { card: self.card_name@, sub_key: self.sub_key@, url: self.url@ }
    }
}

pub open spec fn rescue_tasks(v: Seq<RescueItem>) -> Seq<RescueTask> {
    v.map_values(|r: RescueItem| r@)
}

/// What follows the last slash.
pub open spec fn last_segment(url: Seq<char>) -> Seq<char>
    decreases url.len(),
{
    if url.len() == 0 || url.last() == '/' {
        Seq::empty()
    } else {
        last_segment(url.drop_last()).push(url.last())
    }
}

/// The part in front of the first question mark.
pub open spec fn before_query(s: Seq<char>) -> Seq<char> {
    match split_once(s, '?') {
        Some((path, _)) => path,
        None => s,
    }
}

/// The endpoint that an address belongs to.
pub open spec fn endpoint(url: Seq<char>) -> Seq<char> {
    if contains(url, "sellerType=0"@) {
        STORE_PREFIX_INT_PRIVATE@
    } else if contains(url, "sellerType"@) {
        STORE_PREFIX_INT@
    } else {
        STORE_PREFIX@
    }
}

/// What a user has to fetch by hand when an address stays blocked: the card's
/// slug is the last part of the address, without its query.
pub fn rescue_item(url: &str) -> (item: RescueItem)
    ensures
        item@ == (RescueTask {
            card: before_query(last_segment(url@)),
            sub_key: endpoint(url@),
            url: url@,
        }),
{
    let v = to_chars(url);
    let mut start: usize = v.len();
    assert(v@.subrange(start as int, v@.len() as int) =~= Seq::empty());
    assert(v@.take(start as int) =~= v@);
    assert(last_segment(v@) =~= last_segment(v@.take(start as int)) + Seq::empty());
    while start > 0 && v[start - 1] != '/'
        invariant
            start <= v@.len(),
            last_segment(v@) == last_segment(v@.take(start as int)) + v@.subrange(
                start as int,
                v@.len() as int,
            ),
        decreases start,
    {
        proof {
            let t = v@.take(start as int);
            assert(t.last() == v@[start - 1]);
            assert(t.drop_last() =~= v@.take(start - 1));
            assert(last_segment(t) == last_segment(t.drop_last()).push(t.last()));
            assert(last_segment(t.drop_last()).push(t.last()) + v@.subrange(
                start as int,
                v@.len() as int,
            ) =~= last_segment(v@.take(start - 1)) + v@.subrange(start - 1, v@.len() as int));
        }
        start -= 1;
    }
    let segment = slice(&v, start, v.len());
    proof {
        let t = v@.take(start as int);
        if start > 0 {
            assert(t.last() == v@[start - 1]);
        }
        assert(last_segment(t) =~= Seq::empty());
        assert(last_segment(v@) =~= segment@);
    }
    let slug = match split_at_first(&segment, '?') {
        Some((path, _)) => path,
        None => segment,
    };
    let sub_key = if has(url, "sellerType=0") {
        STORE_PREFIX_INT_PRIVATE
    } else if has(url, "sellerType") {
        STORE_PREFIX_INT
    } else {
        STORE_PREFIX
    };
    RescueItem {
        card_name: from_chars(&slug),
        sub_key: sub_key.to_owned(),
        url: url.to_owned(),
    }
}

// The store

/// The results of all three endpoints for one card.
pub struct CardResults {
    pub norwegian: Vec<StoreResult>,
    pub int_powerseller: Vec<StoreResult>,
    pub int_private: Vec<StoreResult>,
}

/// `CardResults` as plain text and numbers.
pub struct Endpoints {
    pub norwegian: Seq<Listing>,
    pub int_powerseller: Seq<Listing>,
    pub int_private: Seq<Listing>,
}

impl View for CardResults {
    type V = Endpoints;

    open spec fn view(&self) -> Endpoints {
        Endpoints {
            norwegian: listings(self.norwegian@),
            int_powerseller: listings(self.int_powerseller@),
            int_private: listings(self.int_private@),
        }
    }
}

impl Endpoints {
    /// The results under one cache key; nothing for another key.
    pub open spec fn under(self, sub_key: Seq<char>) -> Option<Seq<Listing>> {
        match flags_of(sub_key) {
            Some((false, _)) => Some(self.norwegian),
            Some((true, false)) => Some(self.int_powerseller),
            Some((true, true)) => Some(self.int_private),
            None => None,
        }
    }

    /// The results of all endpoints in a row.
    pub open spec fn all(self) -> Seq<Listing> {
        self.norwegian + self.int_powerseller + self.int_private
    }
}

/// A copy of a list of results.
pub fn copy_results(v: &Vec<StoreResult>) -> (copy: Vec<StoreResult>)
    ensures
        listings(copy@) == listings(v@),
{
    let mut copy: Vec<StoreResult> = Vec::new();
    let mut i: usize = 0;
    assert(listings(copy@) =~= listings(v@).take(0));
    while i < v.len()
        invariant
            i <= v@.len(),
            listings(copy@) == listings(v@).take(i as int),
        decreases v@.len() - i,
    {
        let ghost before = copy@;
        copy.push(v[i].duplicate());
        proof {
            assert(listings(copy@) =~= listings(before).push(v@[i as int]@));
            assert(listings(v@).take(i + 1) =~= listings(v@).take(i as int).push(v@[i as int]@));
        }
        i += 1;
    }
    assert(listings(v@).take(i as int) =~= listings(v@));
    copy
}

impl CardResults {
    /// The results of the three endpoints from their offers.
    pub fn from_sellers(
        norwegian: &Vec<SellerEntry>,
        int_powerseller: &Vec<SellerEntry>,
        int_private: &Vec<SellerEntry>,
        card_name: &str,
    ) -> (results: Self)
        ensures
            results@ == (Endpoints {
                norwegian: offer_listings(sellers(norwegian@), card_name@, false, false),
                int_powerseller: offer_listings(
                    sellers(int_powerseller@),
                    card_name@,
                    true,
                    false,
                ),
                int_private: offer_listings(sellers(int_private@), card_name@, true, true),
            }),
    {
        CardResults {
            norwegian: sellers_to_results(norwegian, card_name, false, false),
            int_powerseller: sellers_to_results(int_powerseller, card_name, true, false),
            int_private: sellers_to_results(int_private, card_name, true, true),
        }
    }

    /// The results under one cache key.
    pub fn sub(&self, sub_key: &str) -> (results: Option<Vec<StoreResult>>)
        ensures
            match self@.under(sub_key@) {
                Some(l) => results matches Some(v) && listings(v@) == l,
                None => results is None,
            },
    {
        match sub_flags(sub_key) {
            Some((false, _)) => Some(copy_results(&self.norwegian)),
            Some((true, false)) => Some(copy_results(&self.int_powerseller)),
            Some((true, true)) => Some(copy_results(&self.int_private)),
            None => None,
        }
    }

    /// The results of all endpoints in a row.
    pub fn into_all(self) -> (all: Vec<StoreResult>)
        ensures
            listings(all@) == self@.all(),
    {
        let ghost a = self.norwegian@;
        let ghost b = self.int_powerseller@;
        let ghost c = self.int_private@;
        let CardResults { norwegian, int_powerseller, int_private } = self;
        let mut all = norwegian;
        let mut more = int_powerseller;
        let mut rest = int_private;
        all.append(&mut more);
        all.append(&mut rest);
        assert(listings(all@) =~= listings(a) + listings(b) + listings(c));
        all
    }
}

/// The results of one seller, in a list of groups by seller.
pub struct SellerGroup {
    pub store_name: String,
    pub results: Vec<StoreResult>,
}

/// The seller names of the results, each once, in order of their first result.
pub open spec fn seller_names(rows: Seq<Listing>) -> Seq<Seq<char>>
    decreases rows.len(),
{
    if rows.len() == 0 {
        Seq::empty()
    } else {
        let rest = seller_names(rows.drop_last());
        if rest.contains(rows.last().store) {
            rest
        } else {
            rest.push(rows.last().store)
        }
    }
}

/// The results of one seller, in order.
pub open spec fn rows_of_seller(rows: Seq<Listing>, store: Seq<char>) -> Seq<Listing>
    decreases rows.len(),
{
    if rows.len() == 0 {
        Seq::empty()
    } else {
        let rest = rows_of_seller(rows.drop_last(), store);
        if rows.last().store == store {
            rest.push(rows.last())
        } else {
            rest
        }
    }
}

pub(crate) fn pick_seller(results: &Vec<StoreResult>, store: &String) -> (picked: Vec<StoreResult>)
    ensures
        listings(picked@) == rows_of_seller(listings(results@), store@),
{
    let ghost all = listings(results@);
    let mut picked: Vec<StoreResult> = Vec::new();
    let mut i: usize = 0;
    proof {
        assert(all.take(0) =~= Seq::empty());
        assert(listings(picked@) =~= Seq::empty());
    }
    while i < results.len()
        invariant
            all == listings(results@),
            i <= results@.len(),
            listings(picked@) == rows_of_seller(all.take(i as int), store@),
        decreases results@.len() - i,
    {
        let ghost before = picked@;
        proof {
            let t = all.take(i + 1);
            assert(t.drop_last() =~= all.take(i as int));
            assert(t.last() == results@[i as int]@);
        }
        if results[i].store_name == *store {
            picked.push(results[i].duplicate());
            assert(listings(picked@) =~= listings(before).push(results@[i as int]@));
        }
        i += 1;
    }
    assert(all.take(i as int) =~= all);
    picked
}

/// The results grouped by seller, so that each seller's rows can be replaced at once.
pub fn group_by_seller(results: &Vec<StoreResult>) -> (groups: Vec<SellerGroup>)
    ensures
        groups@.map_values(|g: SellerGroup| g.store_name@) == seller_names(listings(results@)),
        forall|i: int|
            0 <= i < groups@.len() ==> listings((#[trigger] groups@[i]).results@)
                == rows_of_seller(listings(results@), groups@[i].store_name@),
{
    let ghost all = listings(results@);
    let ghost name_of = |g: SellerGroup| g.store_name@;
    let mut groups: Vec<SellerGroup> = Vec::new();
    let mut i: usize = 0;
    proof {
        assert(all.take(0) =~= Seq::empty());
        assert(groups@.map_values(name_of) =~= Seq::empty());
    }
    while i < results.len()
        invariant
            name_of == (|g: SellerGroup| g.store_name@),
            all == listings(results@),
            i <= results@.len(),
            groups@.map_values(name_of) == seller_names(all.take(i as int)),
            forall|k: int|
                0 <= k < groups@.len() ==> listings((#[trigger] groups@[k]).results@)
                    == rows_of_seller(all, groups@[k].store_name@),
        decreases results@.len() - i,
    {
        let ghost names = groups@.map_values(name_of);
        let ghost store = results@[i as int].store_name@;
        proof {
            let t = all.take(i + 1);
            assert(t.drop_last() =~= all.take(i as int));
            assert(t.last() == results@[i as int]@);
        }
        let mut seen: bool = false;
        let mut k: usize = 0;
        while k < groups.len()
            invariant
                name_of == (|g: SellerGroup| g.store_name@),
                names == groups@.map_values(name_of),
                i < results@.len(),
                store == results@[i as int].store_name@,
                k <= groups@.len(),
                seen == exists|j: int| 0 <= j < k && #[trigger] names[j] == store,
            decreases groups@.len() - k,
        {
            assert(names[k as int] == groups@[k as int].store_name@);
            if groups[k].store_name == results[i].store_name {
                seen = true;
            }
            k += 1;
        }
        proof {
            if names.contains(store) {
                let j = choose|j: int| 0 <= j < names.len() && names[j] == store;
                assert(names[j] == store);
            }
        }
        if !seen {
            let ghost before = groups@;
            let group = SellerGroup {
                store_name: results[i].store_name.clone(),
                results: pick_seller(results, &results[i].store_name),
            };
            groups.push(group);
            assert(groups@.map_values(name_of) =~= before.map_values(name_of).push(store));
        }
        i += 1;
    }
    assert(all.take(i as int) =~= all);
    groups
}

/// CardMarket: the state of a batch of requests.
pub struct CardMarket {
    pub block_count: u32,
    /// Blocked pages are fetched by hand; the store is never given up.
    pub semi_manual: bool,
    pub rescue_queue: Vec<RescueItem>,
    pub card_names: Vec<String>,
    /// Parallel to `card_names`.
    pub card_results: Vec<CardResults>,
    pub verbose: bool,
}

impl Store for CardMarket {
    open spec fn store_name(&self) -> Seq<char> {
        STORE_PREFIX@
    }

    open spec fn timeout(&self) -> u64 {
        TIMEOUT_SECS
    }

    open spec fn keys(&self) -> Seq<Seq<char>> {
        seq![STORE_PREFIX@, STORE_PREFIX_INT@, STORE_PREFIX_INT_PRIVATE@]
    }

    fn name(&self) -> &str {
        STORE_PREFIX
    }

    fn timeout_secs(&self) -> u64 {
        TIMEOUT_SECS
    }

    fn cache_keys(&self) -> Vec<String> {
        let mut keys: Vec<String> = Vec::new();
        keys.push(STORE_PREFIX.to_owned());
        keys.push(STORE_PREFIX_INT.to_owned());
        keys.push(STORE_PREFIX_INT_PRIVATE.to_owned());
        assert(texts(keys@) =~= self.keys());
        keys
    }
}

/// The store has been blocked too often for this batch.
pub open spec fn blocked(store: CardMarket) -> bool {
    !store.semi_manual && store.block_count >= BLOCK_LIMIT
}

/// Has the store been blocked too often for this batch?  Never in semi-manual mode.
pub fn is_blocked(store: &CardMarket) -> (b: bool)
    ensures
        b == blocked(*store),
{
    !store.semi_manual && store.block_count >= BLOCK_LIMIT
}

/// What a search of one endpoint does first.
pub enum SubStart {
    /// The store is given up; there are no results.
    Blocked,
    /// The card was fetched before.
    Known(Vec<StoreResult>),
    /// The card was fetched before, but the key is none of the store's.
    UnknownSubKey,
    /// The card has to be fetched.
    Fetch,
}

/// What follows from a failed fetch.
pub enum FailureAction {
    /// The page waits for a user to fetch it.
    RescuePending,
    /// The store asks for a challenge to be solved.
    Challenge,
    /// The browser is gone; fetch again with a new one.
    Retry,
    /// Report these messages.
    Report(String),
}

/// The texts with a colon and a space between them.
pub open spec fn chained(parts: Seq<Seq<char>>) -> Seq<char>
    decreases parts.len(),
{
    if parts.len() == 0 {
        Seq::empty()
    } else if parts.len() == 1 {
        parts[0]
    } else {
        chained(parts.drop_last()) + ": "@ + parts.last()
    }
}

fn chain_messages(messages: &Vec<String>) -> (s: String)
    ensures
        s@ == chained(texts(messages@)),
{
    let ghost all = texts(messages@);
    let mut s = String::new();
    let mut i: usize = 0;
    assert(all.take(0) =~= Seq::empty());
    while i < messages.len()
        invariant
            all == texts(messages@),
            i <= messages@.len(),
            s@ == chained(all.take(i as int)),
        decreases messages@.len() - i,
    {
        proof {
            let t = all.take(i + 1);
            assert(t.drop_last() =~= all.take(i as int));
            assert(t.last() == messages@[i as int]@);
        }
        if i > 0 {
            s.append(": ");
        }
        s.append(&messages[i]);
        assert(i == 0 ==> s@ =~= all.take(1)[0]);
        i += 1;
    }
    assert(all.take(i as int) =~= all);
    s
}

/// The first message of an error, which is what it is reported as.
pub open spec fn outer_message(messages: Seq<Seq<char>>) -> Seq<char> {
    if messages.len() > 0 {
        messages[0]
    } else {
        Seq::empty()
    }
}

/// The first entries alone decide what is known below them.
proof fn lemma_known_same(a: CardMarket, b: CardMarket, card: Seq<char>, below: int)
    requires
        0 <= below <= a.card_names@.len() <= b.card_names@.len(),
        a.wf(),
        b.wf(),
        forall|i: int|
            0 <= i < below ==> #[trigger] a.card_names@[i] == b.card_names@[i] && a.card_results@[i]
                == b.card_results@[i],
    ensures
        a.known(card, below) == b.known(card, below),
    decreases below,
{
    if below > 0 {
        assert(a.card_names@[below - 1] == b.card_names@[below - 1]);
        lemma_known_same(a, b, card, below - 1);
    }
}

impl CardMarket {
    pub open spec fn wf(&self) -> bool {
        self.card_names@.len() == self.card_results@.len()
    }

    /// The results of a card that was fetched before, the latest first.
    pub open spec fn known(&self, card: Seq<char>, below: int) -> Option<Endpoints>
        decreases below,
    {
        if below <= 0 {
            None
        } else if self.card_names@[below - 1]@ == card {
            Some(self.card_results@[below - 1]@)
        } else {
            self.known(card, below - 1)
        }
    }

    /// The results of a card that was fetched before.
    pub open spec fn fetched(&self, card: Seq<char>) -> Option<Endpoints> {
        self.known(card, self.card_names@.len() as int)
    }

    pub fn new(verbose: bool) -> (store: Self)
        ensures
            store.wf(),
            store.verbose == verbose,
            !store.semi_manual,
            store.block_count == 0,
            !blocked(store),
            forall|card: Seq<char>| #[trigger] store.fetched(card) is None,
            store.rescue_queue@.len() == 0,
    {
        CardMarket {
            block_count: 0,
            semi_manual: false,
            rescue_queue: Vec::new(),
            card_names: Vec::new(),
            card_results: Vec::new(),
            verbose,
        }
    }

    /// Switches semi-manual mode on or off.
    pub fn set_semi_manual(&mut self, on: bool)
        ensures
            *final(self) == (CardMarket { semi_manual: on, ..*old(self) }),
    {
        self.semi_manual = on;
    }

    /// Counts a block.
    pub fn record_cloudflare_block(&mut self)
        ensures
            *final(self) == (CardMarket {
                block_count: final(self).block_count,
                ..*old(self)
            }),
            final(self).block_count == if old(self).block_count < u32::MAX {
                (old(self).block_count + 1) as u32
            } else {
                0
            },
    {
        self.block_count = if self.block_count < u32::MAX {
            self.block_count + 1
        } else {
            0
        };
    }

    /// Forgets the blocks, so that the next batch gets a fresh chance.
    pub fn reset_block_count(&mut self)
        ensures
            *final(self) == (CardMarket { block_count: 0, ..*old(self) }),
            !blocked(*final(self)),
    {
        self.block_count = 0;
    }

    /// Queues a page to be fetched by hand.
    pub fn queue_rescue(&mut self, url: &str)
        ensures
            rescue_tasks(final(self).rescue_queue@) == rescue_tasks(old(self).rescue_queue@).push(
                RescueTask {
                    card: before_query(last_segment(url@)),
                    sub_key: endpoint(url@),
                    url: url@,
                },
            ),
            *final(self) == (CardMarket { rescue_queue: final(self).rescue_queue, ..*old(self) }),
    {
        let ghost before = self.rescue_queue@;
        let item = rescue_item(url);
        self.rescue_queue.push(item);
        assert(rescue_tasks(self.rescue_queue@) =~= rescue_tasks(before).push(item@));
    }

    /// Takes all queued pages.
    pub fn drain_rescue_queue(&mut self) -> (items: Vec<RescueItem>)
        ensures
            items@ == old(self).rescue_queue@,
            final(self).rescue_queue@.len() == 0,
            *final(self) == (CardMarket { rescue_queue: final(self).rescue_queue, ..*old(self) }),
    {
        let mut items: Vec<RescueItem> = Vec::new();
        std::mem::swap(&mut items, &mut self.rescue_queue);
        items
    }

    /// Starts the search of one endpoint.
    pub fn start_sub(&self, card_name: &str, sub_key: &str) -> (start: SubStart)
        requires
            self.wf(),
        ensures
            if blocked(*self) {
                start is Blocked
            } else {
                match self.fetched(card_name@) {
                    Some(known) => match known.under(sub_key@) {
                        Some(l) => start matches SubStart::Known(v) && listings(v@) == l,
                        None => start is UnknownSubKey,
                    },
                    None => start is Fetch,
                }
            },
    {
        if is_blocked(self) {
            return SubStart::Blocked;
        }
        let mut below: usize = self.card_names.len();
        let card = card_name.to_owned();
        while below > 0
            invariant
                self.wf(),
                card@ == card_name@,
                !blocked(*self),
                below <= self.card_names@.len(),
                self.fetched(card_name@) == self.known(card_name@, below as int),
            decreases below,
        {
            if self.card_names[below - 1] == card {
                return match self.card_results[below - 1].sub(sub_key) {
                    Some(v) => SubStart::Known(v),
                    None => SubStart::UnknownSubKey,
                };
            }
            below -= 1;
        }
        SubStart::Fetch
    }

    /// Ends a successful fetch: remembers the results and returns those of one
    /// endpoint.  An unknown key leaves everything as it was.
    pub fn end_fetch(&mut self, card_name: &str, sub_key: &str, results: CardResults) -> (found:
        Option<Vec<StoreResult>>)
        requires
            old(self).wf(),
        ensures
            final(self).wf(),
            match results@.under(sub_key@) {
                Some(l) => {
                    &&& found matches Some(v) && listings(v@) == l
                    &&& final(self).fetched(card_name@) == Some(results@)
                    &&& forall|card: Seq<char>|
                        card != card_name@ ==> #[trigger] final(self).fetched(card) == old(
                            self,
                        ).fetched(card)
                },
                None => found is None && *final(self) == *old(self),
            },
            *final(self) == (CardMarket {
                card_names: final(self).card_names,
                card_results: final(self).card_results,
                ..*old(self)
            }),
    {
        match results.sub(sub_key) {
            Some(v) => {
                self.card_names.push(card_name.to_owned());
                self.card_results.push(results);
                proof {
                    let n = old(self).card_names@.len() as int;
                    assert forall|card: Seq<char>| card != card_name@ implies #[trigger] self.fetched(
                        card,
                    ) == old(self).fetched(card) by {
                        lemma_known_same(*old(self), *self, card, n);
                    }
                }
                Some(v)
            },
            None => None,
        }
    }

    /// Decides what follows from a failed fetch, the first one being attempt 0.
    pub fn after_failure(&mut self, messages: &Vec<String>, attempt: u32) -> (action: FailureAction)
        requires
            old(self).wf(),
        ensures
            final(self).wf(),
            ({
                let all = texts(messages@);
                if tells_challenge(all) {
                    &&& *final(self) == (CardMarket {
                        block_count: if old(self).block_count < u32::MAX {
                            (old(self).block_count + 1) as u32
                        } else {
                            0
                        },
                        ..*old(self)
                    })
                    &&& if old(self).semi_manual {
                        action is RescuePending
                    } else {
                        action is Challenge
                    }
                } else if tells_dead(outer_message(all)) && attempt == 0 {
                    &&& action is Retry
                    &&& *final(self) == (CardMarket {
                        card_names: final(self).card_names,
                        card_results: final(self).card_results,
                        ..*old(self)
                    })
                    &&& forall|card: Seq<char>| #[trigger] final(self).fetched(card) is None
                } else {
                    &&& action matches FailureAction::Report(s) && s@ == chained(all)
                    &&& *final(self) == *old(self)
                }
            }),
            final(self).semi_manual == old(self).semi_manual,
    {
        if is_cloudflare_error(messages) {
            self.record_cloudflare_block();
            return if self.semi_manual {
                FailureAction::RescuePending
            } else {
                FailureAction::Challenge
            };
        }
        let dead: bool = if messages.len() > 0 {
            assert(texts(messages@)[0] == messages@[0]@);
            is_browser_dead(&messages[0])
        } else {
            is_browser_dead("")
        };
        proof {
            reveal_strlit("");
            assert(""@ =~= Seq::empty());
        }
        if dead && attempt == 0 {
            self.forget_cards();
            return FailureAction::Retry;
        }
        FailureAction::Report(chain_messages(messages))
    }

    fn forget_cards(&mut self)
        ensures
            final(self).wf(),
            *final(self) == (CardMarket {
                card_names: final(self).card_names,
                card_results: final(self).card_results,
                ..*old(self)
            }),
            forall|card: Seq<char>| #[trigger] final(self).fetched(card) is None,
    {
        self.card_names = Vec::new();
        self.card_results = Vec::new();
    }

    /// Ends a batch: forgets the fetched cards and the blocks.
    pub fn teardown(&mut self)
        ensures
            final(self).wf(),
            !blocked(*final(self)),
            *final(self) == (CardMarket {
                block_count: 0,
                card_names: final(self).card_names,
                card_results: final(self).card_results,
                ..*old(self)
            }),
            forall|card: Seq<char>| #[trigger] final(self).fetched(card) is None,
    {
        self.reset_block_count();
        self.forget_cards();
    }
}

} // verus!
