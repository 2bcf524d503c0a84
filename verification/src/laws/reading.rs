//! What is read of pages, and how text goes into queries.

use crate::cache::Tables;
use crate::cache::names::{fresh_name, with_name};
use crate::html::{document_elements, document_firsts, page_rows, Query, RowView};
use crate::percent::{hex_digit, percent_byte, percent_bytes, url_encoded};
use crate::stores::{adamstuen, cardmarket, collectible, korthaien, midgard, pokeboks};
use crate::stores::page::read_rows;
use crate::wizard::model::Strategy;
use vstd::prelude::*;

verus! {

/// A letter, a digit or one of `-_.~` stays as it is in a query, and nothing else
/// does.
pub proof fn law_encoded_characters(c: char)
    ensures
        'A' <= c <= 'Z' || 'a' <= c <= 'z' || '0' <= c <= '9' || c == '-' || c == '_' || c == '.'
            || c == '~' ==> url_encoded(seq![c]) == seq![c],
        !('A' <= c <= 'Z' || 'a' <= c <= 'z' || '0' <= c <= '9' || c == '-' || c == '_' || c == '.'
            || c == '~') ==> url_encoded(seq![c]) == percent_bytes(
            vstd::utf8::encode_utf8(seq![c]),
        ),
{
    let none = Seq::<char>::empty();
    assert(seq![c].drop_last() =~= none);
    reveal_with_fuel(url_encoded, 2);
    assert(none.push(c) =~= seq![c]);
    let bytes = percent_bytes(vstd::utf8::encode_utf8(seq![c]));
    assert(none + bytes =~= bytes);
}

/// A byte is a percent sign and its two hexadecimal digits, in capitals.
pub proof fn law_encoded_bytes(bytes: Seq<u8>, b: u8)
    ensures
        percent_bytes(Seq::empty()).len() == 0,
        percent_bytes(bytes.push(b)) == percent_bytes(bytes) + percent_byte(b as int),
        percent_byte(b as int).len() == 3,
        percent_byte(b as int)[0] == '%',
        percent_byte(b as int)[1] == hex_digit(b as int / 16),
        percent_byte(b as int)[2] == hex_digit(b as int % 16),
        b < 10 ==> hex_digit(b as int) as u32 == '0' as u32 + b,
        10 <= b < 16 ==> hex_digit(b as int) as u32 == 'A' as u32 + (b - 10),
{
    assert(bytes.push(b).drop_last() =~= bytes);
}

/// The rows of a page are the elements that match, each with the first element in
/// it that matches each of the queries.
pub proof fn law_rows_and_cells(
    html: Seq<char>,
    css: Seq<char>,
    attr: Seq<char>,
    queries: Seq<Query>,
    rows: Seq<RowView>,
    i: int,
    q: int,
)
    requires
        page_rows(html, false, css, attr, queries) == Some(rows),
        0 <= i < rows.len(),
        0 <= q < queries.len(),
    ensures
        document_elements(html, css, attr) matches Some(els) && els.len() == rows.len()
            && els[i].attr == rows[i].attr,
        rows[i].cells.len() == queries.len(),
        document_firsts(html, css, queries[q].css@, queries[q].attr@) matches Some(cells)
            && rows[i].cells[q] == cells[i],
{
}

/// The rows and cells that are read on the stores' search pages.
pub proof fn law_what_is_read(html: Seq<char>, rows: Seq<RowView>)
    ensures
        page_rows(html, false, "div.product-layout"@, "class"@, adamstuen::row_queries()) == Some(
            rows,
        ) ==> adamstuen::page_products(html) == read_rows::<adamstuen::Adamstuen>(rows),
        page_rows(
            html,
            false,
            "article.product-thumb-info"@,
            "data-stock-quantity"@,
            korthaien::row_queries(),
        ) == Some(rows) ==> korthaien::page_products(html) == read_rows::<korthaien::Korthaien>(
            rows,
        ),
        page_rows(html, false, "div.product.grid__item"@, "class"@, midgard::row_queries()) == Some(
            rows,
        ) ==> midgard::page_products(html) == read_rows::<midgard::Midgard>(rows),
        page_rows(html, false, "div.product-small"@, ""@, collectible::row_queries()) == Some(rows)
            ==> collectible::page_products(html) == read_rows::<collectible::Collectible>(rows),
        page_rows(
            html,
            true,
            "[data-elementor-type=\"loop-item\"]"@,
            "class"@,
            pokeboks::row_queries(),
        ) == Some(rows) ==> pokeboks::page_products(html) == read_rows::<pokeboks::Pokeboks>(rows),
        page_rows(html, false, "div.article-row"@, ""@, cardmarket::row_queries()) == Some(rows)
            ==> cardmarket::page_sellers(html) == cardmarket::read_sellers(rows),
{
}

/// The cells of the stores' rows: where the title, the link, the price and what
/// tells of the stock stand.
pub proof fn law_cells_read()
    ensures
        adamstuen::row_queries().map_values(|q: Query| (q.css@, q.attr@)) == seq![
            ("div.name a"@, "href"@),
            ("span.price-normal"@, ""@),
            ("a.btn-cart"@, ""@),
        ],
        korthaien::row_queries().map_values(|q: Query| (q.css@, q.attr@)) == seq![
            ("a.pb_title"@, "href"@),
            ("p.text-xl.font-bold"@, ""@),
        ],
        midgard::row_queries().map_values(|q: Query| (q.css@, q.attr@)) == seq![
            ("div.product__title a"@, "href"@),
            ("span.product__price"@, ""@),
        ],
        collectible::row_queries().map_values(|q: Query| (q.css@, q.attr@)) == seq![
            ("p.name.product-title a"@, "href"@),
            ("span.price span.woocommerce-Price-amount.amount bdi"@, ""@),
        ],
        pokeboks::row_queries().map_values(|q: Query| (q.css@, q.attr@)) == seq![
            ("h4.elementor-heading-title"@, ""@),
            ("a"@, "href"@),
            ("span.woocommerce-Price-amount"@, ""@),
        ],
        cardmarket::row_queries().map_values(|q: Query| (q.css@, q.attr@)) == seq![
            ("span.seller-name a"@, "href"@),
            ("div.col-offer span.color-primary.fw-bold"@, ""@),
            ("div.col-offer span.item-count"@, ""@),
        ],
{
    let f = |q: Query| (q.css@, q.attr@);
    assert(adamstuen::row_queries().map_values(f) =~= seq![
        ("div.name a"@, "href"@),
        ("span.price-normal"@, ""@),
        ("a.btn-cart"@, ""@),
    ]);
    assert(korthaien::row_queries().map_values(f) =~= seq![
        ("a.pb_title"@, "href"@),
        ("p.text-xl.font-bold"@, ""@),
    ]);
    assert(midgard::row_queries().map_values(f) =~= seq![
        ("div.product__title a"@, "href"@),
        ("span.product__price"@, ""@),
    ]);
    assert(collectible::row_queries().map_values(f) =~= seq![
        ("p.name.product-title a"@, "href"@),
        ("span.price span.woocommerce-Price-amount.amount bdi"@, ""@),
    ]);
    assert(pokeboks::row_queries().map_values(f) =~= seq![
        ("h4.elementor-heading-title"@, ""@),
        ("a"@, "href"@),
        ("span.woocommerce-Price-amount"@, ""@),
    ]);
    assert(cardmarket::row_queries().map_values(f) =~= seq![
        ("span.seller-name a"@, "href"@),
        ("div.col-offer span.color-primary.fw-bold"@, ""@),
        ("div.col-offer span.item-count"@, ""@),
    ]);
}

/// A name that was recorded stands for a day, and no longer.
pub proof fn law_names_stand_for_a_day(
    t: Tables,
    name: Seq<char>,
    resolved: Seq<char>,
    at: i64,
    now: i64,
)
    requires
        at <= now,
    ensures
        ({
            let u = Tables { names: with_name(t.names, name, resolved, at), ..t };
            &&& now - at < 86400 ==> fresh_name(u, name, now) == Some(resolved)
            &&& now - at >= 86400 ==> fresh_name(u, name, now) is None
        }),
{
}

/// The strategies by name, and each other's opposite.
pub proof fn law_strategies(s: Strategy)
    ensures
        Strategy::Simplest.label() == "simplest"@,
        Strategy::Cheapest.label() == "cheapest"@,
        s.opposite() != s,
        s.opposite().opposite() == s,
{
}

} // verus!
