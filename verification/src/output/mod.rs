//! Tables and summaries as text for a terminal.

pub mod sellers;
pub mod stores;
pub mod wizard;

use crate::output::sellers::{render_cardmarket_section, seller_section};
use crate::output::stores::{is_on_cardmarket, on_cardmarket, render_store_table, store_table};
use crate::rows::{lemma_filter_empty, lemma_filter_step};
use crate::stores::{listings, Listing, StoreResult};
use crate::text::{
    after_prefix, before_suffix, byte_len, byte_length, decimal, decimal_text, ends_with,
    from_chars, joined, slice, starts_with, texts, to_chars, uppercase,
};
use vstd::prelude::*;

verus! {

/// The first character in upper case.
pub open spec fn capitalized(s: Seq<char>) -> Seq<char> {
    if s.len() == 0 {
        s
    } else {
        uppercase(s.take(1)) + s.skip(1)
    }
}

/// The first character in upper case.
fn capitalize(s: &str) -> (out: String)
    ensures
        out@ == capitalized(s@),
{
    let v = to_chars(s);
    if v.len() == 0 {
        return s.to_owned();
    }
    let head = from_chars(&slice(&v, 0, 1));
    let tail = from_chars(&slice(&v, 1, v.len()));
    proof {
        assert(head@ =~= s@.take(1));
        assert(tail@ =~= s@.skip(1));
    }
    joined(&head.to_uppercase(), &tail)
}

/// The domain without its ending.
pub open spec fn without_tld(name: Seq<char>) -> Option<Seq<char>> {
    if ends_with(name, ".no"@) {
        Some(name.take(name.len() - ".no"@.len()))
    } else if ends_with(name, ".com"@) {
        Some(name.take(name.len() - ".com"@.len()))
    } else if ends_with(name, ".net"@) {
        Some(name.take(name.len() - ".net"@.len()))
    } else if ends_with(name, ".org"@) {
        Some(name.take(name.len() - ".org"@.len()))
    } else {
        None
    }
}

fn strip_tld(name: &str) -> (base: Option<String>)
    ensures
        match base {
            Some(b) => without_tld(name@) == Some(b@),
            None => without_tld(name@) is None,
        },
{
    if let Some(base) = before_suffix(name, ".no") {
        return Some(base);
    }
    if let Some(base) = before_suffix(name, ".com") {
        return Some(base);
    }
    if let Some(base) = before_suffix(name, ".net") {
        return Some(base);
    }
    before_suffix(name, ".org")
}

/// A store name for table headers.
pub open spec fn short_name(name: Seq<char>) -> Seq<char> {
    if starts_with(name, "cardmarket-int-private.com:"@) {
        "CM-PRIV:"@ + name.skip("cardmarket-int-private.com:"@.len() as int)
    } else if starts_with(name, "cardmarket-int.com:"@) {
        "CM-INT:"@ + name.skip("cardmarket-int.com:"@.len() as int)
    } else if starts_with(name, "cardmarket.com:"@) {
        "CM:"@ + name.skip("cardmarket.com:"@.len() as int)
    } else {
        match without_tld(name) {
            Some(base) => capitalized(base),
            None => name,
        }
    }
}

/// Shortens a store name for table headers.
pub fn abbreviate(name: &str) -> (short: String)
    ensures
        short@ == short_name(name@),
{
    if let Some(seller) = after_prefix(name, "cardmarket-int-private.com:") {
        return joined("CM-PRIV:", &seller);
    }
    if let Some(seller) = after_prefix(name, "cardmarket-int.com:") {
        return joined("CM-INT:", &seller);
    }
    if let Some(seller) = after_prefix(name, "cardmarket.com:") {
        return joined("CM:", &seller);
    }
    match strip_tld(name) {
        Some(base) => capitalize(&base),
        None => name.to_owned(),
    }
}

/// A price such as "15,00 kr", given in oere.
pub open spec fn price_text(oere: nat) -> Seq<char> {
    let frac = oere % 100;
    decimal(oere / 100) + (if frac < 10 {
        ",0"@
    } else {
        ","@
    }) + decimal(frac) + " kr"@
}

/// A price such as "15,00 kr", given in oere.
pub fn format_price(oere: u32) -> (text: String)
    ensures
        text@ == price_text(oere as nat),
{
    format_price_u64(oere as u64)
}

/// A price such as "15,00 kr", given in oere.
pub fn format_price_u64(oere: u64) -> (text: String)
    ensures
        text@ == price_text(oere as nat),
{
    let frac: u64 = oere % 100;
    let comma = if frac < 10 {
        ",0"
    } else {
        ","
    };
    joined(&joined(&joined(&decimal_text(oere / 100), comma), &decimal_text(frac)), " kr")
}

/// Text that opens `url` on click in terminals that know OSC 8.
pub open spec fn linked(url: Seq<char>, text: Seq<char>) -> Seq<char> {
    "\x1b]8;;"@ + url + "\x1b\\"@ + text + "\x1b]8;;\x1b\\"@
}

/// Text that opens `url` on click in terminals that know OSC 8.
pub fn hyperlink(url: &str, text: &str) -> (out: String)
    ensures
        out@ == linked(url@, text@),
{
    let open = joined(&joined("\x1b]8;;", url), "\x1b\\");
    joined(&joined(&open, text), "\x1b]8;;\x1b\\")
}

/// A character so many times.
pub open spec fn repeated(c: char, n: nat) -> Seq<char> {
    Seq::new(n, |i: int| c)
}

/// Adds a character so many times.
pub fn push_repeated(out: &mut String, c: char, n: usize)
    ensures
        final(out)@ == old(out)@ + repeated(c, n as nat),
{
    let mut i: usize = 0;
    assert(out@ =~= old(out)@ + repeated(c, 0));
    while i < n
        invariant
            i <= n,
            out@ == old(out)@ + repeated(c, i as nat),
        decreases n - i,
    {
        out.push(c);
        i += 1;
        assert(out@ =~= old(out)@ + repeated(c, i as nat));
    }
}

/// How much `n` falls short of `width`.
pub open spec fn shortfall(width: int, n: int) -> nat {
    if n < width {
        (width - n) as nat
    } else {
        0
    }
}

/// The text, filled up with spaces on the right.
pub open spec fn left_aligned(text: Seq<char>, width: int) -> Seq<char> {
    text + repeated(' ', shortfall(width, text.len() as int))
}

/// The text, filled up with spaces on the left.
pub open spec fn right_aligned(text: Seq<char>, width: int) -> Seq<char> {
    repeated(' ', shortfall(width, text.len() as int)) + text
}

/// Adds a text, filled up with spaces on the right.
pub fn push_left(out: &mut String, text: &str, width: usize)
    ensures
        final(out)@ == old(out)@ + left_aligned(text@, width as int),
{
    let n: usize = to_chars(text).len();
    out.append(text);
    if n < width {
        push_repeated(out, ' ', width - n);
    }
    assert(out@ =~= old(out)@ + left_aligned(text@, width as int));
}

/// Adds a text, filled up with spaces on the left.
pub fn push_right(out: &mut String, text: &str, width: usize)
    ensures
        final(out)@ == old(out)@ + right_aligned(text@, width as int),
{
    let n: usize = to_chars(text).len();
    if n < width {
        push_repeated(out, ' ', width - n);
    }
    out.append(text);
    assert(out@ =~= old(out)@ + right_aligned(text@, width as int));
}

/// A cell: `raw`, filled up as if it were as wide as `visible`.  Widths are in
/// bytes.
pub open spec fn cell(visible: Seq<char>, raw: Seq<char>, width: int) -> Seq<char> {
    raw + repeated(' ', shortfall(width, byte_len(visible) as int))
}

/// Adds a cell.
pub fn push_cell(out: &mut String, visible: &str, raw: &str, width: usize)
    ensures
        final(out)@ == old(out)@ + cell(visible@, raw@, width as int),
{
    let n: usize = byte_length(visible);
    out.append(raw);
    if n < width {
        push_repeated(out, ' ', width - n);
    }
    assert(out@ =~= old(out)@ + cell(visible@, raw@, width as int));
}

/// The pieces `f(0)`, `f(1)` and so on, `n` of them, in a row.
pub open spec fn pieces(n: int, f: spec_fn(int) -> Seq<char>) -> Seq<char>
    decreases n,
{
    if n <= 0 {
        Seq::empty()
    } else {
        pieces(n - 1, f) + f(n - 1)
    }
}

/// An "s" where there is not exactly one.
pub open spec fn plural(n: nat) -> Seq<char> {
    if n == 1 {
        ""@
    } else {
        "s"@
    }
}

pub(crate) fn plural_of(n: usize) -> (s: &'static str)
    ensures
        s@ == plural(n as nat),
{
    if n == 1 {
        ""
    } else {
        "s"
    }
}

pub open spec fn larger(a: nat, b: nat) -> nat {
    if a < b {
        b
    } else {
        a
    }
}

/// The listings on CardMarket, or those elsewhere.
pub open spec fn listed_on(cardmarket: bool) -> spec_fn(Listing) -> bool {
    |r: Listing| on_cardmarket(r.store) == cardmarket
}

fn pick_side(results: &Vec<StoreResult>, cardmarket: bool) -> (side: Vec<StoreResult>)
    ensures
        listings(side@) == listings(results@).filter(listed_on(cardmarket)),
        side@.len() <= results@.len(),
{
    let ghost all = listings(results@);
    let ghost p = listed_on(cardmarket);
    let mut side: Vec<StoreResult> = Vec::new();
    let mut i: usize = 0;
    proof {
        lemma_filter_empty(p);
        assert(all.take(0) =~= Seq::empty());
        assert(listings(side@) =~= Seq::empty());
    }
    while i < results.len()
        invariant
            all == listings(results@),
            p == listed_on(cardmarket),
            i <= results@.len(),
            side@.len() <= i,
            listings(side@) == all.take(i as int).filter(p),
        decreases results@.len() - i,
    {
        proof {
            lemma_filter_step(all, i as int, p);
            assert(all[i as int] == results@[i as int]@);
        }
        if is_on_cardmarket(&results[i].store_name) == cardmarket {
            let ghost s0 = side@;
            side.push(results[i].duplicate());
            assert(listings(side@) =~= listings(s0).push(results@[i as int]@));
        }
        i += 1;
    }
    assert(all.take(i as int) =~= all);
    side
}

/// The results as a table of storefronts and a list of CardMarket's sellers.
pub fn render_table(cards: &Vec<String>, results: &Vec<StoreResult>) -> (out: String)
    requires
        cards@.len() <= u32::MAX,
        cards@.len() * results@.len() <= u32::MAX,
    ensures
        out@ == store_table(
            texts(cards@),
            listings(results@).filter(listed_on(false)),
        ) + seller_section(texts(cards@), listings(results@).filter(listed_on(true))),
{
    let storefronts = pick_side(results, false);
    let cardmarket = pick_side(results, true);
    let table = render_store_table(cards, &storefronts);
    proof {
        let n = cards@.len();
        assert(n * cardmarket@.len() <= n * results@.len()) by (nonlinear_arith)
            requires
                cardmarket@.len() <= results@.len(),
        ;
    }
    joined(&table, &render_cardmarket_section(cards, &cardmarket))
}

/// What is said when there are no results at all.
pub fn nothing_found(results: &Vec<StoreResult>) -> (notice: Option<&'static str>)
    ensures
        match notice {
            Some(n) => results@.len() == 0 && n@
                == "no results found for any card across any store"@,
            None => results@.len() > 0,
        },
{
    if results.len() == 0 {
        Some("no results found for any card across any store")
    } else {
        None
    }
}

} // verus!
