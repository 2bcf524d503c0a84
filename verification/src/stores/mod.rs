//! Card stores: what a search returns and what the backends share.

pub mod adamstuen;
pub mod cardmarket;
pub mod collectible;
pub mod finn;
pub mod korthaien;
pub mod midgard;
pub mod outland;
pub mod page;
pub mod pokeboks;
pub mod price;
pub mod printed;

use crate::text::{
    contains, from_chars, has, lowercase, replace, replace_all, replaced, texts, to_chars, trim,
    trimmed,
};
use vstd::prelude::*;

verus! {

/// Minimum delay between requests to a store (in milliseconds).
pub const DELAY_MS: u64 = 200;

/// Extra random delay on top of `DELAY_MS` (in milliseconds).
pub const DELAY_JITTER_MS: u64 = 300;

/// A single result from a store search for one card.
#[derive(Debug, Clone)]
pub struct StoreResult {
    pub store_name: String,
    pub card_name: String,
    /// Price in oere.
    pub price: u32,
    pub url: String,
}

/// A `StoreResult` as plain text and numbers.
pub struct Listing {
    pub store: Seq<char>,
    pub card: Seq<char>,
    pub price: u32,
    pub url: Seq<char>,
}

impl View for StoreResult {
    type V = Listing;

    open spec fn view(&self) -> Listing {
        Listing {
            store: self.store_name@,
            card: self.card_name@,
            price: self.price,
            url: self.url@,
        }
    }
}

/// The listings of a row of results.
pub open spec fn listings(v: Seq<StoreResult>) -> Seq<Listing> {
    v.map_values(|r: StoreResult| r@)
}

impl StoreResult {
    /// A copy of this result.
    pub fn duplicate(&self) -> (copy: Self)
        ensures
            copy@ == self@,
    {
        StoreResult {
            store_name: self.store_name.clone(),
            card_name: self.card_name.clone(),
            price: self.price,
            url: self.url.clone(),
        }
    }
}

/// A product found on a store's search page.
#[derive(Debug)]
pub struct SearchProduct {
    pub name: String,
    /// Price in oere.
    pub price: u32,
    pub url: String,
    pub in_stock: bool,
}

/// A `SearchProduct` as plain text and numbers.
pub struct Product {
    pub name: Seq<char>,
    pub price: u32,
    pub url: Seq<char>,
    pub in_stock: bool,
}

impl View for SearchProduct {
    type V = Product;

    open spec fn view(&self) -> Product {
        Product {
            name: self.name@,
            price: self.price,
            url: self.url@,
            in_stock: self.in_stock,
        }
    }
}

/// The products of a row of findings.
pub open spec fn products(v: Seq<SearchProduct>) -> Seq<Product> {
    v.map_values(|p: SearchProduct| p@)
}

/// The card's name stands in the title, whatever the case.
pub open spec fn titled(card: Seq<char>, title: Seq<char>) -> bool {
    contains(lowercase(title), lowercase(card))
}

/// Does the card's name stand in the title, whatever the case?
pub fn title_contains(card_name: &str, title: &str) -> (b: bool)
    ensures
        b == titled(card_name@, title@),
{
    has(&title.to_lowercase(), &card_name.to_lowercase())
}

/// Spaces as `%20`.
pub fn urlencode_pct(s: &str) -> (out: String)
    ensures
        out@ == replace(s@, " "@, "%20"@),
{
    proof {
        reveal_strlit(" ");
    }
    replace_all(s, " ", "%20")
}

/// Spaces as `+`.
pub fn urlencode_plus(s: &str) -> (out: String)
    ensures
        out@ == replace(s@, " "@, "+"@),
{
    proof {
        reveal_strlit(" ");
    }
    replace_all(s, " ", "+")
}

/// The form of a card's name in a CardMarket address: spaces and double slashes
/// become hyphens, apostrophes and commas go.
pub open spec fn slug(name: Seq<char>) -> Seq<char> {
    let dashed = replace(replace(trim(name), " // "@, "-"@), "//"@, "-"@);
    replace(replace(replace(dashed, "'"@, ""@), ","@, ""@), " "@, "-"@)
}

/// The card's name as part of a CardMarket address.
/// E.g. "Evolving Wilds" becomes "Evolving-Wilds", "Hydra's Growth" becomes
/// "Hydras-Growth" and "Find // Finality" becomes "Find-Finality".
pub fn title_to_slug(name: &str) -> (out: String)
    ensures
        out@ == slug(name@),
{
    proof {
        reveal_strlit(" // ");
        reveal_strlit("//");
        reveal_strlit("'");
        reveal_strlit(",");
        reveal_strlit(" ");
    }
    let v = trimmed(&to_chars(name));
    let dash = to_chars("-");
    let nothing = to_chars("");
    let v = replaced(&v, &to_chars(" // "), &dash);
    let v = replaced(&v, &to_chars("//"), &dash);
    let v = replaced(&v, &to_chars("'"), &nothing);
    let v = replaced(&v, &to_chars(","), &nothing);
    let v = replaced(&v, &to_chars(" "), &dash);
    from_chars(&v)
}

/// A store: its name, the time to wait for it, and the keys under which its
/// results are cached.  A store with several independent searches has one key
/// for each.
pub trait Store {
    spec fn store_name(&self) -> Seq<char>;

    spec fn timeout(&self) -> u64;

    spec fn keys(&self) -> Seq<Seq<char>>;

    /// The name shown to users.
    fn name(&self) -> (n: &str)
        ensures
            n@ == self.store_name(),
    ;

    /// Seconds to wait for an answer.
    fn timeout_secs(&self) -> (secs: u64)
        ensures
            secs == self.timeout(),
    ;

    /// The cache keys.
    fn cache_keys(&self) -> (keys: Vec<String>)
        ensures
            texts(keys@) == self.keys(),
    ;
}

/// The keys of a store with one search.
pub(crate) fn one_key(name: &str) -> (keys: Vec<String>)
    ensures
        texts(keys@) == seq![name@],
{
    let mut keys: Vec<String> = Vec::new();
    keys.push(name.to_owned());
    assert(texts(keys@) =~= seq![name@]);
    keys
}

} // verus!
