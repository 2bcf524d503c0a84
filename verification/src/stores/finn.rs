//! finn.no

use crate::html::{
    concat, concat_texts, document_elements, document_select, elems, inner_text, opt_text,
    trimmed_text, Elem, Element,
};
use crate::json::{json_text, json_texts, opt_texts, text_at, texts_at};
use crate::stores::{title_contains, titled, urlencode_pct, Listing, Store, StoreResult};
use crate::text::{
    byte_len, byte_length, contains, decimal, decimal_text, from_chars, has, joined, lowercase,
    replace, texts, to_chars, trim, trimmed,
};
use vstd::prelude::*;

verus! {

pub const SEARCH_URL: &'static str =
    "https://www.finn.no/recommerce/forsale/search/api/search/SEARCH_ID_BAP_COMMON";

pub const STORE_NAME: &'static str = "finn.no";

pub const TIMEOUT_SECS: u64 = 30;

pub const ITEM_URL: &'static str = "https://www.finn.no/recommerce/forsale/item";

/// "Fritid, hobby og underholdning", "Samleobjekter", "Samlekort".
pub const CATEGORY: &'static str = "0.86";

pub const PRODUCT_CATEGORY: &'static str = "2.86.285.396";

pub struct Finn;

impl Finn {
    pub fn new() -> (store: Self)
        ensures
            store.store_name() == STORE_NAME@,
            store.timeout() == TIMEOUT_SECS,
    {
        Finn
    }
}

impl Store for Finn {
    open spec fn store_name(&self) -> Seq<char> {
        STORE_NAME@
    }

    open spec fn timeout(&self) -> u64 {
        TIMEOUT_SECS
    }

    open spec fn keys(&self) -> Seq<Seq<char>> {
        seq![STORE_NAME@]
    }

    fn name(&self) -> &str {
        STORE_NAME
    }

    fn timeout_secs(&self) -> u64 {
        TIMEOUT_SECS
    }

    fn cache_keys(&self) -> Vec<String> {
        crate::stores::one_key(STORE_NAME)
    }
}

/// The address of one page of a search.
pub open spec fn page_address(card: Seq<char>, page: u32) -> Seq<char> {
    SEARCH_URL@ + "?q="@ + replace(card, " "@, "%20"@) + "&category="@ + CATEGORY@
        + "&product_category="@ + PRODUCT_CATEGORY@ + "&page="@ + decimal(page as nat)
}

/// The address of one page of a search.
pub fn search_url(card_name: &str, page: u32) -> (url: String)
    ensures
        url@ == page_address(card_name@, page),
{
    let url = joined(&joined(SEARCH_URL, "?q="), &urlencode_pct(card_name));
    let url = joined(&joined(&url, "&category="), CATEGORY);
    let url = joined(&joined(&url, "&product_category="), PRODUCT_CATEGORY);
    joined(&joined(&url, "&page="), &decimal_text(page as u64))
}

/// The page to fetch after `page`, given the last page if the store names one.
pub fn next_page(page: u32, last: Option<u32>) -> (next: Option<u32>)
    ensures
        next == (match last {
            Some(l) if page < l => Some((page + 1) as u32),
            None if page < 1 => Some((page + 1) as u32),
            _ => None,
        }),
{
    let last_page: u32 = match last {
        Some(l) => l,
        None => 1,
    };
    if page >= last_page {
        None
    } else {
        Some(page + 1)
    }
}

/// An ad as the search lists it.
pub struct SearchDoc {
    pub id: String,
    pub canonical_url: Option<String>,
    /// Price in whole kroner, if the ad states one.
    pub amount: Option<i64>,
}

/// The price in oere of an amount in kroner, if it is one.
pub open spec fn oere(amount: Option<i64>) -> Option<u32> {
    match amount {
        Some(a) => if 0 <= a * 100 <= u32::MAX {
            Some((a * 100) as u32)
        } else {
            None
        },
        None => None,
    }
}

impl SearchDoc {
    /// The price in oere, if the ad states one that is not negative and fits.
    pub fn price_amount(&self) -> (price: Option<u32>)
        ensures
            price == oere(self.amount),
    {
        match self.amount {
            Some(a) => {
                if 0 <= a && a <= 42949672 {
                    Some((a * 100) as u32)
                } else {
                    None
                }
            },
            None => None,
        }
    }
}

/// The address of an ad.
pub open spec fn item_address(id: Seq<char>) -> Seq<char> {
    ITEM_URL@ + "/"@ + id
}

/// The address of an ad.
pub fn item_url(id: &str) -> (url: String)
    ensures
        url@ == item_address(id@),
{
    joined(&joined(ITEM_URL, "/"), id)
}

/// What an ad's page tells.
pub struct AdDetail {
    pub description: String,
    pub seller_name: String,
}

/// The listing of an ad: one whose description names the card and does not
/// mention Pokemon.  Without a price it is listed at zero.
pub open spec fn ad_listing(card: Seq<char>, doc: SearchDoc, detail: AdDetail) -> Option<Listing> {
    if contains(lowercase(detail.description@), "pokemon"@) || !titled(card, detail.description@) {
        None
    } else {
        Some(
            Listing {
                store: STORE_NAME@ + ": "@ + detail.seller_name@,
                card,
                price: match oere(doc.amount) {
                    Some(p) => p,
                    None => 0,
                },
                url: match doc.canonical_url {
                    Some(u) => u@,
                    None => item_address(doc.id@),
                },
            },
        )
    }
}

/// The result for an ad, if it offers the card.
pub fn ad_result(card_name: &str, doc: &SearchDoc, detail: &AdDetail) -> (result: Option<
    StoreResult,
>)
    ensures
        match ad_listing(card_name@, *doc, *detail) {
            Some(l) => result matches Some(r) && r@ == l,
            None => result is None,
        },
{
    if has(&detail.description.to_lowercase(), "pokemon") {
        return None;
    }
    if !title_contains(card_name, &detail.description) {
        return None;
    }
    let price: u32 = match doc.price_amount() {
        Some(p) => p,
        None => 0,
    };
    let url = match &doc.canonical_url {
        Some(u) => u.clone(),
        None => item_url(&doc.id),
    };
    Some(
        StoreResult {
            store_name: joined(&joined(STORE_NAME, ": "), &detail.seller_name),
            card_name: card_name.to_owned(),
            price,
            url,
        },
    )
}

/// All text nodes of the elements, trimmed, without the empty ones.
pub open spec fn trimmed_nodes(nodes: Seq<Seq<char>>) -> Seq<Seq<char>>
    decreases nodes.len(),
{
    if nodes.len() == 0 {
        Seq::empty()
    } else {
        let rest = trimmed_nodes(nodes.drop_last());
        if trim(nodes.last()).len() > 0 {
            rest.push(trim(nodes.last()))
        } else {
            rest
        }
    }
}

/// The text nodes of several elements in a row.
pub open spec fn all_nodes(els: Seq<Elem>) -> Seq<Seq<char>>
    decreases els.len(),
{
    if els.len() == 0 {
        Seq::empty()
    } else {
        all_nodes(els.drop_last()) + els.last().texts
    }
}

/// The texts with a space between them.
pub open spec fn spaced(parts: Seq<Seq<char>>) -> Seq<char>
    decreases parts.len(),
{
    if parts.len() == 0 {
        Seq::empty()
    } else if parts.len() == 1 {
        parts[0]
    } else {
        spaced(parts.drop_last()) + " "@ + parts.last()
    }
}

/// The description in the elements of an ad's page; nothing if they hold no text.
pub open spec fn description_of(els: Seq<Elem>) -> Option<Seq<char>> {
    let parts = trimmed_nodes(all_nodes(els));
    if parts.len() == 0 {
        None
    } else {
        Some(spaced(parts))
    }
}

/// The description in the elements of an ad's page.
pub fn join_description(els: &Vec<Element>) -> (text: Option<String>)
    ensures
        opt_text(text) == description_of(elems(els@)),
{
    let ghost all = elems(els@);
    let mut out = String::new();
    let mut count: usize = 0;
    let mut i: usize = 0;
    proof {
        assert(all.take(0) =~= Seq::empty());
        assert(trimmed_nodes(all_nodes(all.take(0))) =~= Seq::empty());
    }
    while i < els.len()
        invariant
            all == elems(els@),
            i <= els@.len(),
            count <= 1,
            (count == 0) == (trimmed_nodes(all_nodes(all.take(i as int))).len() == 0),
            out@ == spaced(trimmed_nodes(all_nodes(all.take(i as int)))),
        decreases els@.len() - i,
    {
        let ghost before = all_nodes(all.take(i as int));
        let ghost nodes = texts(els@[i as int].texts@);
        let mut k: usize = 0;
        proof {
            assert(all.take(i + 1).drop_last() =~= all.take(i as int));
            assert(all.take(i + 1).last() == els@[i as int]@);
            assert(before + nodes.take(0) =~= before);
        }
        while k < els[i].texts.len()
            invariant
                i < els@.len(),
                nodes == texts(els@[i as int].texts@),
                k <= nodes.len(),
                count <= 1,
                (count == 0) == (trimmed_nodes(before + nodes.take(k as int)).len() == 0),
                out@ == spaced(trimmed_nodes(before + nodes.take(k as int))),
            decreases nodes.len() - k,
        {
            let t = trimmed(&to_chars(&els[i].texts[k]));
            let ghost old_parts = trimmed_nodes(before + nodes.take(k as int));
            proof {
                let more = before + nodes.take(k + 1);
                assert(more.drop_last() =~= before + nodes.take(k as int));
                assert(more.last() == nodes[k as int]);
            }
            if t.len() > 0 {
                let ghost parts = old_parts.push(t@);
                proof {
                    assert(parts.drop_last() =~= old_parts);
                }
                if count > 0 {
                    out.append(" ");
                }
                out.append(&from_chars(&t));
                proof {
                    if old_parts.len() == 0 {
                        assert(out@ =~= t@);
                    }
                    assert(out@ =~= spaced(parts));
                }
                count = 1;
            }
            k += 1;
        }
        assert(nodes.take(k as int) =~= nodes);
        i += 1;
    }
    assert(all.take(i as int) =~= all);
    if count == 0 {
        None
    } else {
        Some(out)
    }
}

/// The first text in a list that has one.
pub open spec fn first_text(v: Seq<Option<Seq<char>>>, from: int) -> Option<Seq<char>>
    decreases v.len() - from,
{
    if from < 0 || from >= v.len() {
        None
    } else if v[from] is Some {
        v[from]
    } else {
        first_text(v, from + 1)
    }
}

/// The seller in one piece of structured data: that of the product, or of the
/// first entry of its graph that has one.
pub open spec fn structured_seller(json: Seq<char>) -> Option<Seq<char>> {
    match json_text(json, "seller"@, "name"@) {
        Some(n) => Some(n),
        None => match json_texts(json, "@graph"@, "seller"@, "name"@) {
            Some(names) => first_text(names, 0),
            None => None,
        },
    }
}

/// The seller in the first piece of structured data, from `from` on, that names one.
pub open spec fn structured_sellers(scripts: Seq<Elem>, from: int) -> Option<Seq<char>>
    decreases scripts.len() - from,
{
    if from < 0 || from >= scripts.len() {
        None
    } else {
        match structured_seller(concat(scripts[from].texts)) {
            Some(n) => Some(n),
            None => structured_sellers(scripts, from + 1),
        }
    }
}

fn find_structured_seller(json: &str) -> (name: Option<String>)
    ensures
        opt_text(name) == structured_seller(json@),
{
    if let Some(n) = text_at(json, "seller", "name") {
        return Some(n);
    }
    match texts_at(json, "@graph", "seller", "name") {
        Some(names) => {
            let ghost all = opt_texts(names@);
            let mut i: usize = 0;
            while i < names.len()
                invariant
                    all == opt_texts(names@),
                    i <= names@.len(),
                    first_text(all, 0) == first_text(all, i as int),
                    structured_seller(json@) == first_text(all, 0),
                decreases names@.len() - i,
            {
                assert(all[i as int] == opt_text(names@[i as int]));
                if let Some(n) = &names[i] {
                    return Some(n.clone());
                }
                i += 1;
            }
            None
        },
        None => None,
    }
}

/// The seller that a page's structured data names.
pub fn extract_from_ld_json(scripts: &Vec<Element>) -> (name: Option<String>)
    ensures
        opt_text(name) == structured_sellers(elems(scripts@), 0),
{
    let ghost all = elems(scripts@);
    let mut i: usize = 0;
    while i < scripts.len()
        invariant
            all == elems(scripts@),
            i <= scripts@.len(),
            structured_sellers(all, 0) == structured_sellers(all, i as int),
        decreases scripts@.len() - i,
    {
        assert(all[i as int] == scripts@[i as int]@);
        if let Some(n) = find_structured_seller(&concat_texts(&scripts[i].texts)) {
            return Some(n);
        }
        i += 1;
    }
    None
}

/// A text that can be a seller's name: not empty, and short.
pub open spec fn name_like(s: Seq<char>) -> bool {
    s.len() > 0 && byte_len(s) < 80
}

/// The first link text, from `from` on, that can be a seller's name.
pub open spec fn linked_name(links: Seq<Elem>, from: int) -> Option<Seq<char>>
    decreases links.len() - from,
{
    if from < 0 || from >= links.len() {
        None
    } else if name_like(inner_text(links[from])) {
        Some(inner_text(links[from]))
    } else {
        linked_name(links, from + 1)
    }
}

/// The first link text that can be a seller's name.
pub fn find_linked_name(links: &Vec<Element>) -> (name: Option<String>)
    ensures
        opt_text(name) == linked_name(elems(links@), 0),
{
    let ghost all = elems(links@);
    let mut i: usize = 0;
    while i < links.len()
        invariant
            all == elems(links@),
            i <= links@.len(),
            linked_name(all, 0) == linked_name(all, i as int),
        decreases links@.len() - i,
    {
        assert(all[i as int] == links@[i as int]@);
        let text = trimmed_text(&links[i]);
        if !text.as_str().is_empty() && byte_length(&text) < 80 {
            return Some(text);
        }
        i += 1;
    }
    None
}

/// The links that lead to a seller's profile, the most telling first.
pub open spec fn profile_selectors() -> Seq<Seq<char>> {
    seq![
        "a[href*='/profile/ads']"@,
        "a[href*='/profile/']"@,
        "a[href*='/profil/']"@,
        "a[href*='/user/']"@,
    ]
}

/// The seller's name by the profile links of a page, from selector `from` on.
pub open spec fn profile_name(html: Seq<char>, from: int) -> Option<Seq<char>>
    decreases profile_selectors().len() - from,
{
    if from < 0 || from >= profile_selectors().len() {
        None
    } else {
        let here = match document_elements(html, profile_selectors()[from], ""@) {
            Some(links) => linked_name(links, 0),
            None => None,
        };
        match here {
            Some(n) => Some(n),
            None => profile_name(html, from + 1),
        }
    }
}

/// The seller's name on an ad's page: from its structured data, else from its
/// profile links, else "unknown".
pub open spec fn seller_name(html: Seq<char>) -> Seq<char> {
    let structured = match document_elements(html, "script[type='application/ld+json']"@, ""@) {
        Some(scripts) => structured_sellers(scripts, 0),
        None => None,
    };
    match structured {
        Some(n) if n.len() > 0 => n,
        _ => match profile_name(html, 0) {
            Some(n) => n,
            None => "unknown"@,
        },
    }
}

/// The seller's name on an ad's page.
pub fn extract_seller_name(html: &str) -> (name: String)
    ensures
        name@ == seller_name(html@),
{
    if let Some(scripts) = document_select(html, "script[type='application/ld+json']", "") {
        if let Some(n) = extract_from_ld_json(&scripts) {
            if !n.as_str().is_empty() {
                return n;
            }
        }
    }
    let selectors = vec![
        "a[href*='/profile/ads']",
        "a[href*='/profile/']",
        "a[href*='/profil/']",
        "a[href*='/user/']",
    ];
    let mut i: usize = 0;
    while i < selectors.len()
        invariant
            selectors@.len() == profile_selectors().len(),
            forall|k: int|
                0 <= k < selectors@.len() ==> (#[trigger] selectors@[k])@ == profile_selectors()[k],
            i <= selectors@.len(),
            profile_name(html@, 0) == profile_name(html@, i as int),
            seller_name(html@) == (match profile_name(html@, 0) {
                Some(n) => n,
                None => "unknown"@,
            }),
        decreases selectors@.len() - i,
    {
        assert(selectors@[i as int]@ == profile_selectors()[i as int]);
        if let Some(links) = document_select(html, selectors[i], "") {
            if let Some(n) = find_linked_name(&links) {
                return n;
            }
        }
        i += 1;
    }
    "unknown".to_owned()
}

/// Why an ad's page could not be read.
#[derive(Debug, PartialEq, Eq, Structural, Clone, Copy)]
pub enum AdError {
    /// A selector is not valid CSS.
    BadSelector,
    /// The page holds no description.
    NoDescription,
}

/// The elements of an ad's page that hold its description.
pub open spec fn description_selector() -> Seq<char> {
    "section[data-testid=\"description\"] div.whitespace-pre-wrap"@
}

/// What an ad's page tells: its description and its seller.
pub fn ad_detail(html: &str) -> (detail: Result<AdDetail, AdError>)
    ensures
        match document_elements(html@, description_selector(), ""@) {
            None => detail == Err::<AdDetail, AdError>(AdError::BadSelector),
            Some(els) => match description_of(els) {
                None => detail == Err::<AdDetail, AdError>(AdError::NoDescription),
                Some(text) => detail matches Ok(d) && d.description@ == text && d.seller_name@
                    == seller_name(html@),
            },
        },
{
    let found = document_select(
        html,
        "section[data-testid=\"description\"] div.whitespace-pre-wrap",
        "",
    );
    match found {
        None => Err(AdError::BadSelector),
        Some(els) => match join_description(&els) {
            None => Err(AdError::NoDescription),
            Some(description) => {
                let seller_name = extract_seller_name(html);
                Ok(AdDetail { description, seller_name })
            },
        },
    }
}

} // verus!
