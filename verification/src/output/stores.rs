//! The table of storefronts: one card per row, one store per column.

use crate::cache::listings::contains_name;
use crate::output::{
    abbreviate, cell, format_price, format_price_u64, hyperlink, larger, left_aligned, linked,
    pieces, price_text, push_cell, push_left, push_repeated, repeated, short_name,
};
use crate::stores::{listings, Listing, StoreResult};
use crate::text::{begins, byte_len, byte_length, joined, same_text, starts_with, texts};
use vstd::prelude::*;

verus! {

/// The widest rule under a table.
pub const MAX_RULE: usize = 200;

/// A seller on CardMarket.
pub open spec fn on_cardmarket(store: Seq<char>) -> bool {
    starts_with(store, "cardmarket.com:"@) || starts_with(store, "cardmarket-int.com:"@)
        || starts_with(store, "cardmarket-int-private.com:"@)
}

/// Is it a seller on CardMarket?
pub fn is_on_cardmarket(store: &str) -> (b: bool)
    ensures
        b == on_cardmarket(store@),
{
    begins(store, "cardmarket.com:") || begins(store, "cardmarket-int.com:") || begins(
        store,
        "cardmarket-int-private.com:",
    )
}

/// The stores, each once, in order of appearance.
pub open spec fn columns(rs: Seq<Listing>) -> Seq<Seq<char>>
    decreases rs.len(),
{
    if rs.len() == 0 {
        Seq::empty()
    } else {
        let rest = columns(rs.drop_last());
        if rest.contains(rs.last().store) {
            rest
        } else {
            rest.push(rs.last().store)
        }
    }
}

/// Where the cheapest listing of a card at a store stands, the first of equals.
pub open spec fn best_at(rs: Seq<Listing>, card: Seq<char>, store: Seq<char>) -> Option<int>
    decreases rs.len(),
{
    if rs.len() == 0 {
        None
    } else {
        let best = best_at(rs.drop_last(), card, store);
        let last = rs.last();
        if last.card == card && last.store == store && (best matches Some(b) ==> last.price
            < rs[b].price) {
            Some(rs.len() - 1)
        } else {
            best
        }
    }
}

/// The cheapest listing of a card at a store.
pub open spec fn offer(rs: Seq<Listing>, card: Seq<char>, store: Seq<char>) -> Option<Listing> {
    match best_at(rs, card, store) {
        Some(i) => Some(rs[i]),
        None => None,
    }
}

/// A store has the card.
pub open spec fn carried(rs: Seq<Listing>, card: Seq<char>) -> bool {
    exists|i: int| 0 <= i < rs.len() && #[trigger] rs[i].card == card
}

/// The cards that a store has.
pub open spec fn shown_cards(cards: Seq<Seq<char>>, rs: Seq<Listing>) -> Seq<Seq<char>>
    decreases cards.len(),
{
    if cards.len() == 0 {
        Seq::empty()
    } else {
        let rest = shown_cards(cards.drop_last(), rs);
        if carried(rs, cards.last()) {
            rest.push(cards.last())
        } else {
            rest
        }
    }
}

/// The column with the lowest price for a card, the first of equals.
pub open spec fn lowest_column(rs: Seq<Listing>, card: Seq<char>, cols: Seq<Seq<char>>) -> Option<int>
    decreases cols.len(),
{
    if cols.len() == 0 {
        None
    } else {
        let best = lowest_column(rs, card, cols.drop_last());
        match offer(rs, card, cols.last()) {
            Some(r) => match best {
                Some(b) if offer(rs, card, cols[b]) matches Some(s) && s.price <= r.price => best,
                _ => Some(cols.len() - 1),
            },
            None => best,
        }
    }
}

/// The widest of the names, at least `least`.
pub open spec fn widest(names: Seq<Seq<char>>, least: nat) -> nat
    decreases names.len(),
{
    if names.len() == 0 {
        least
    } else {
        larger(widest(names.drop_last(), least), byte_len(names.last()))
    }
}

/// The widest price at a store, at least 1.
pub open spec fn widest_price(shown: Seq<Seq<char>>, rs: Seq<Listing>, store: Seq<char>) -> nat
    decreases shown.len(),
{
    if shown.len() == 0 {
        1
    } else {
        let rest = widest_price(shown.drop_last(), rs, store);
        match offer(rs, shown.last(), store) {
            Some(r) => larger(rest, byte_len(price_text(r.price as nat))),
            None => rest,
        }
    }
}

/// The width of a store's column.
pub open spec fn column_width(shown: Seq<Seq<char>>, rs: Seq<Listing>, store: Seq<char>) -> nat {
    larger(widest_price(shown, rs, store), byte_len(short_name(store)))
}

/// The widths of the columns, with what separates them.
pub open spec fn columns_width(shown: Seq<Seq<char>>, rs: Seq<Listing>, cols: Seq<Seq<char>>) -> nat
    decreases cols.len(),
{
    if cols.len() == 0 {
        0
    } else {
        columns_width(shown, rs, cols.drop_last()) + column_width(shown, rs, cols.last()) + 3
    }
}

/// The length of the rule under the header.
pub open spec fn rule_len(shown: Seq<Seq<char>>, rs: Seq<Listing>, cols: Seq<Seq<char>>) -> nat {
    let all = widest(shown, 4) + columns_width(shown, rs, cols);
    if all > MAX_RULE {
        MAX_RULE as nat
    } else {
        all
    }
}

/// What the cards cost at a store.
pub open spec fn column_total(shown: Seq<Seq<char>>, rs: Seq<Listing>, store: Seq<char>) -> nat
    decreases shown.len(),
{
    if shown.len() == 0 {
        0
    } else {
        let rest = column_total(shown.drop_last(), rs, store);
        match offer(rs, shown.last(), store) {
            Some(r) => rest + r.price as nat,
            None => rest,
        }
    }
}

/// A cell of the header.
pub open spec fn header_cell(
    shown: Seq<Seq<char>>,
    rs: Seq<Listing>,
    cols: Seq<Seq<char>>,
) -> spec_fn(int) -> Seq<char> {
    |i: int|
        " | "@ + left_aligned(short_name(cols[i]), column_width(shown, rs, cols[i]) as int)
}

/// The price of a listing, in green where it is the card's lowest.
pub open spec fn marked_price(r: Listing, lowest: bool) -> Seq<char> {
    if lowest {
        "\x1b[32m"@ + price_text(r.price as nat) + "\x1b[0m"@
    } else {
        price_text(r.price as nat)
    }
}

/// A cell of a card's row: the price as a link, or a dash.
pub open spec fn offer_cell(
    shown: Seq<Seq<char>>,
    rs: Seq<Listing>,
    cols: Seq<Seq<char>>,
    card: Seq<char>,
) -> spec_fn(int) -> Seq<char> {
    |i: int|
        " | "@ + match offer(rs, card, cols[i]) {
            Some(r) => cell(
                price_text(r.price as nat),
                linked(r.url, marked_price(r, lowest_column(rs, card, cols) == Some(i))),
                column_width(shown, rs, cols[i]) as int,
            ),
            None => cell("-"@, "-"@, column_width(shown, rs, cols[i]) as int),
        }
}

/// A card's row.
pub open spec fn card_row(
    shown: Seq<Seq<char>>,
    rs: Seq<Listing>,
    cols: Seq<Seq<char>>,
) -> spec_fn(int) -> Seq<char> {
    |k: int|
        left_aligned(shown[k], widest(shown, 4) as int) + pieces(
            cols.len() as int,
            offer_cell(shown, rs, cols, shown[k]),
        ) + "\n"@
}

/// A cell of the totals.
pub open spec fn total_cell(
    shown: Seq<Seq<char>>,
    rs: Seq<Listing>,
    cols: Seq<Seq<char>>,
) -> spec_fn(int) -> Seq<char> {
    |i: int|
        {
            let sum = column_total(shown, rs, cols[i]);
            let text = if sum > 0 {
                price_text(sum)
            } else {
                "-"@
            };
            " | "@ + cell(text, text, column_width(shown, rs, cols[i]) as int)
        }
}

/// The table of storefronts; nothing if they have none of the cards.
pub open spec fn store_table(cards: Seq<Seq<char>>, rs: Seq<Listing>) -> Seq<char> {
    let shown = shown_cards(cards, rs);
    let cols = columns(rs);
    let n = cols.len() as int;
    let rule = repeated('-', rule_len(shown, rs, cols)) + "\n"@;
    if shown.len() == 0 {
        Seq::empty()
    } else {
        left_aligned("Card"@, widest(shown, 4) as int) + pieces(n, header_cell(shown, rs, cols))
            + "\n"@ + rule + pieces(shown.len() as int, card_row(shown, rs, cols)) + rule
            + left_aligned("Total"@, widest(shown, 4) as int) + pieces(
            n,
            total_cell(shown, rs, cols),
        ) + "\n"@
    }
}

/// The stores, each once, in order of appearance.
pub(crate) fn columns_of(rs: &Vec<StoreResult>) -> (cols: Vec<String>)
    ensures
        texts(cols@) == columns(listings(rs@)),
{
    let ghost all = listings(rs@);
    let mut cols: Vec<String> = Vec::new();
    let mut i: usize = 0;
    assert(all.take(0) =~= Seq::empty());
    assert(texts(cols@) =~= Seq::empty());
    while i < rs.len()
        invariant
            all == listings(rs@),
            i <= rs@.len(),
            texts(cols@) == columns(all.take(i as int)),
        decreases rs@.len() - i,
    {
        proof {
            let t = all.take(i + 1);
            assert(t.drop_last() =~= all.take(i as int));
            assert(t.last() == rs@[i as int]@);
        }
        if !contains_name(&cols, &rs[i].store_name) {
            let ghost c0 = cols@;
            cols.push(rs[i].store_name.clone());
            assert(texts(cols@) =~= texts(c0).push(rs@[i as int].store_name@));
        }
        i += 1;
    }
    assert(all.take(i as int) =~= all);
    cols
}

/// Where the cheapest listing of a card at a store stands.
pub(crate) fn best_index(rs: &Vec<StoreResult>, card: &str, store: &str) -> (at: Option<usize>)
    ensures
        match at {
            Some(i) => i < rs@.len() && offer(listings(rs@), card@, store@) == Some(rs@[i as int]@),
            None => offer(listings(rs@), card@, store@) is None,
        },
{
    let ghost all = listings(rs@);
    let mut best: Option<usize> = None;
    let mut i: usize = 0;
    assert(all.take(0) =~= Seq::empty());
    while i < rs.len()
        invariant
            all == listings(rs@),
            i <= rs@.len(),
            match best {
                Some(b) => b < i && best_at(all.take(i as int), card@, store@) == Some(b as int),
                None => best_at(all.take(i as int), card@, store@) is None,
            },
        decreases rs@.len() - i,
    {
        let r = &rs[i];
        proof {
            let t = all.take(i + 1);
            assert(t.drop_last() =~= all.take(i as int));
            assert(t.last() == r@);
            if let Some(b) = best {
                assert(t[b as int] == rs@[b as int]@);
            }
        }
        if same_text(&r.card_name, card) && same_text(&r.store_name, store) {
            let cheaper: bool = match best {
                Some(b) => r.price < rs[b].price,
                None => true,
            };
            if cheaper {
                best = Some(i);
            }
        }
        i += 1;
    }
    assert(all.take(i as int) =~= all);
    best
}

/// The cards that a store has.
pub(crate) fn shown_of(cards: &Vec<String>, rs: &Vec<StoreResult>) -> (shown: Vec<String>)
    ensures
        texts(shown@) == shown_cards(texts(cards@), listings(rs@)),
        shown@.len() <= cards@.len(),
{
    let ghost names = texts(cards@);
    let ghost all = listings(rs@);
    let mut shown: Vec<String> = Vec::new();
    let mut i: usize = 0;
    assert(names.take(0) =~= Seq::empty());
    assert(texts(shown@) =~= Seq::empty());
    while i < cards.len()
        invariant
            names == texts(cards@),
            all == listings(rs@),
            i <= cards@.len(),
            shown@.len() <= i,
            texts(shown@) == shown_cards(names.take(i as int), all),
        decreases cards@.len() - i,
    {
        proof {
            let t = names.take(i + 1);
            assert(t.drop_last() =~= names.take(i as int));
            assert(t.last() == cards@[i as int]@);
        }
        if has_card(rs, &cards[i]) {
            let ghost s0 = shown@;
            shown.push(cards[i].clone());
            assert(texts(shown@) =~= texts(s0).push(cards@[i as int]@));
        }
        i += 1;
    }
    assert(names.take(i as int) =~= names);
    shown
}

/// Does a store have the card?
pub(crate) fn has_card(rs: &Vec<StoreResult>, card: &str) -> (b: bool)
    ensures
        b == carried(listings(rs@), card@),
{
    let ghost all = listings(rs@);
    let mut i: usize = 0;
    while i < rs.len()
        invariant
            all == listings(rs@),
            i <= rs@.len(),
            forall|k: int| 0 <= k < i ==> #[trigger] all[k].card != card@,
        decreases rs@.len() - i,
    {
        assert(all[i as int] == rs@[i as int]@);
        if same_text(&rs[i].card_name, card) {
            assert(all[i as int].card == card@);
            return true;
        }
        i += 1;
    }
    false
}

/// The widest of the names, at least `least`.
pub(crate) fn widest_of(names: &Vec<String>, least: usize) -> (width: usize)
    ensures
        width == widest(texts(names@), least as nat),
{
    let ghost all = texts(names@);
    let mut width: usize = least;
    let mut i: usize = 0;
    assert(all.take(0) =~= Seq::empty());
    while i < names.len()
        invariant
            all == texts(names@),
            i <= names@.len(),
            width == widest(all.take(i as int), least as nat),
        decreases names@.len() - i,
    {
        proof {
            let t = all.take(i + 1);
            assert(t.drop_last() =~= all.take(i as int));
            assert(t.last() == names@[i as int]@);
        }
        let n: usize = byte_length(&names[i]);
        if width < n {
            width = n;
        }
        i += 1;
    }
    assert(all.take(i as int) =~= all);
    width
}

/// The width of a store's column.
fn width_of(shown: &Vec<String>, rs: &Vec<StoreResult>, store: &str) -> (width: usize)
    ensures
        width == column_width(texts(shown@), listings(rs@), store@),
{
    let ghost all = texts(shown@);
    let ghost ls = listings(rs@);
    let mut width: usize = 1;
    let mut i: usize = 0;
    assert(all.take(0) =~= Seq::empty());
    while i < shown.len()
        invariant
            all == texts(shown@),
            ls == listings(rs@),
            i <= shown@.len(),
            width == widest_price(all.take(i as int), ls, store@),
        decreases shown@.len() - i,
    {
        proof {
            let t = all.take(i + 1);
            assert(t.drop_last() =~= all.take(i as int));
            assert(t.last() == shown@[i as int]@);
        }
        if let Some(k) = best_index(rs, &shown[i], store) {
            let n: usize = byte_length(&format_price(rs[k].price));
            if width < n {
                width = n;
            }
        }
        i += 1;
    }
    assert(all.take(i as int) =~= all);
    let n: usize = byte_length(&abbreviate(store));
    if width < n {
        n
    } else {
        width
    }
}

/// What the cards cost at a store.
fn total_of(shown: &Vec<String>, rs: &Vec<StoreResult>, store: &str) -> (sum: u64)
    requires
        shown@.len() <= u32::MAX,
    ensures
        sum == column_total(texts(shown@), listings(rs@), store@),
{
    let ghost all = texts(shown@);
    let ghost ls = listings(rs@);
    let mut sum: u64 = 0;
    let mut i: usize = 0;
    assert(all.take(0) =~= Seq::empty());
    while i < shown.len()
        invariant
            all == texts(shown@),
            ls == listings(rs@),
            shown@.len() <= u32::MAX,
            i <= shown@.len(),
            sum <= i * 0xffff_ffff,
            sum == column_total(all.take(i as int), ls, store@),
        decreases shown@.len() - i,
    {
        proof {
            let t = all.take(i + 1);
            assert(t.drop_last() =~= all.take(i as int));
            assert(t.last() == shown@[i as int]@);
        }
        if let Some(k) = best_index(rs, &shown[i], store) {
            sum = sum + rs[k].price as u64;
        }
        i += 1;
    }
    assert(all.take(i as int) =~= all);
    sum
}

/// The column with the lowest price for a card.
fn lowest_of(rs: &Vec<StoreResult>, card: &str, cols: &Vec<String>) -> (at: Option<usize>)
    ensures
        match at {
            Some(i) => lowest_column(listings(rs@), card@, texts(cols@)) == Some(i as int),
            None => lowest_column(listings(rs@), card@, texts(cols@)) is None,
        },
{
    let ghost ls = listings(rs@);
    let ghost all = texts(cols@);
    let mut best: Option<(usize, u32)> = None;
    let mut i: usize = 0;
    assert(all.take(0) =~= Seq::empty());
    while i < cols.len()
        invariant
            ls == listings(rs@),
            all == texts(cols@),
            i <= cols@.len(),
            match best {
                Some((b, price)) => b < i && lowest_column(ls, card@, all.take(i as int)) == Some(
                    b as int,
                ) && (offer(ls, card@, all[b as int]) matches Some(r) && r.price == price),
                None => lowest_column(ls, card@, all.take(i as int)) is None,
            },
        decreases cols@.len() - i,
    {
        proof {
            let t = all.take(i + 1);
            assert(t.drop_last() =~= all.take(i as int));
            assert(t.last() == cols@[i as int]@);
            if let Some((b, _)) = best {
                assert(t[b as int] == all[b as int]);
            }
        }
        if let Some(k) = best_index(rs, card, &cols[i]) {
            let price: u32 = rs[k].price;
            let keep: bool = match best {
                Some((_, p)) => p <= price,
                None => false,
            };
            if !keep {
                best = Some((i, price));
            }
        }
        i += 1;
    }
    assert(all.take(i as int) =~= all);
    match best {
        Some((b, _)) => Some(b),
        None => None,
    }
}

/// The widths of the columns.
fn widths_of(shown: &Vec<String>, rs: &Vec<StoreResult>, cols: &Vec<String>) -> (widths: Vec<usize>)
    ensures
        widths@.len() == cols@.len(),
        forall|i: int|
            0 <= i < cols@.len() ==> #[trigger] widths@[i] == column_width(
                texts(shown@),
                listings(rs@),
                texts(cols@)[i],
            ),
{
    let mut widths: Vec<usize> = Vec::new();
    let mut i: usize = 0;
    while i < cols.len()
        invariant
            i <= cols@.len(),
            widths@.len() == i,
            forall|k: int|
                0 <= k < i ==> #[trigger] widths@[k] == column_width(
                    texts(shown@),
                    listings(rs@),
                    texts(cols@)[k],
                ),
        decreases cols@.len() - i,
    {
        widths.push(width_of(shown, rs, &cols[i]));
        i += 1;
    }
    widths
}

/// The length of the rule under the header.
fn rule_of(shown: &Vec<String>, rs: &Vec<StoreResult>, cols: &Vec<String>, widths: &Vec<usize>) -> (n:
    usize)
    requires
        widths@.len() == cols@.len(),
        forall|i: int|
            0 <= i < cols@.len() ==> #[trigger] widths@[i] == column_width(
                texts(shown@),
                listings(rs@),
                texts(cols@)[i],
            ),
    ensures
        n == rule_len(texts(shown@), listings(rs@), texts(cols@)),
{
    let ghost sh = texts(shown@);
    let ghost ls = listings(rs@);
    let ghost all = texts(cols@);
    let first: usize = widest_of(shown, 4);
    let mut n: usize = if first < MAX_RULE {
        first
    } else {
        MAX_RULE
    };
    let mut i: usize = 0;
    assert(all.take(0) =~= Seq::empty());
    while i < cols.len()
        invariant
            sh == texts(shown@),
            ls == listings(rs@),
            all == texts(cols@),
            widths@.len() == cols@.len(),
            forall|k: int|
                0 <= k < cols@.len() ==> #[trigger] widths@[k] == column_width(sh, ls, all[k]),
            i <= cols@.len(),
            first == widest(sh, 4),
            n <= MAX_RULE,
            n == if first + columns_width(sh, ls, all.take(i as int)) > MAX_RULE {
                MAX_RULE as int
            } else {
                first + columns_width(sh, ls, all.take(i as int))
            },
        decreases cols@.len() - i,
    {
        proof {
            let t = all.take(i + 1);
            assert(t.drop_last() =~= all.take(i as int));
            assert(t.last() == all[i as int]);
            assert(widths@[i as int] == column_width(sh, ls, all[i as int]));
        }
        let w: usize = widths[i];
        n = if w >= MAX_RULE || n + w + 3 > MAX_RULE {
            MAX_RULE
        } else {
            n + w + 3
        };
        i += 1;
    }
    assert(all.take(i as int) =~= all);
    n
}

/// Adds the header's cells.
fn push_header(
    out: &mut String,
    shown: &Vec<String>,
    rs: &Vec<StoreResult>,
    cols: &Vec<String>,
    widths: &Vec<usize>,
)
    requires
        widths@.len() == cols@.len(),
        forall|i: int|
            0 <= i < cols@.len() ==> #[trigger] widths@[i] == column_width(
                texts(shown@),
                listings(rs@),
                texts(cols@)[i],
            ),
    ensures
        final(out)@ == old(out)@ + pieces(
            cols@.len() as int,
            header_cell(texts(shown@), listings(rs@), texts(cols@)),
        ),
{
    let ghost f = header_cell(texts(shown@), listings(rs@), texts(cols@));
    let mut i: usize = 0;
    assert(out@ =~= old(out)@ + pieces(0, f));
    while i < cols.len()
        invariant
            f == header_cell(texts(shown@), listings(rs@), texts(cols@)),
            widths@.len() == cols@.len(),
            forall|k: int|
                0 <= k < cols@.len() ==> #[trigger] widths@[k] == column_width(
                    texts(shown@),
                    listings(rs@),
                    texts(cols@)[k],
                ),
            i <= cols@.len(),
            out@ == old(out)@ + pieces(i as int, f),
        decreases cols@.len() - i,
    {
        let ghost before = out@;
        out.append(" | ");
        push_left(out, &abbreviate(&cols[i]), widths[i]);
        proof {
            assert(widths@[i as int] == column_width(
                texts(shown@),
                listings(rs@),
                texts(cols@)[i as int],
            ));
            assert(out@ =~= before + f(i as int));
            assert(out@ =~= old(out)@ + pieces(i + 1, f));
        }
        i += 1;
    }
}

/// Adds the cells of a card's row.
fn push_offers(
    out: &mut String,
    shown: &Vec<String>,
    rs: &Vec<StoreResult>,
    cols: &Vec<String>,
    widths: &Vec<usize>,
    card: &str,
)
    requires
        widths@.len() == cols@.len(),
        forall|i: int|
            0 <= i < cols@.len() ==> #[trigger] widths@[i] == column_width(
                texts(shown@),
                listings(rs@),
                texts(cols@)[i],
            ),
    ensures
        final(out)@ == old(out)@ + pieces(
            cols@.len() as int,
            offer_cell(texts(shown@), listings(rs@), texts(cols@), card@),
        ),
{
    let ghost f = offer_cell(texts(shown@), listings(rs@), texts(cols@), card@);
    let lowest: Option<usize> = lowest_of(rs, card, cols);
    let mut i: usize = 0;
    assert(out@ =~= old(out)@ + pieces(0, f));
    while i < cols.len()
        invariant
            f == offer_cell(texts(shown@), listings(rs@), texts(cols@), card@),
            widths@.len() == cols@.len(),
            forall|k: int|
                0 <= k < cols@.len() ==> #[trigger] widths@[k] == column_width(
                    texts(shown@),
                    listings(rs@),
                    texts(cols@)[k],
                ),
            match lowest {
                Some(k) => lowest_column(listings(rs@), card@, texts(cols@)) == Some(k as int),
                None => lowest_column(listings(rs@), card@, texts(cols@)) is None,
            },
            i <= cols@.len(),
            out@ == old(out)@ + pieces(i as int, f),
        decreases cols@.len() - i,
    {
        let ghost before = out@;
        out.append(" | ");
        let width: usize = widths[i];
        assert(width == column_width(texts(shown@), listings(rs@), texts(cols@)[i as int]));
        match best_index(rs, card, &cols[i]) {
            Some(k) => {
                let price = format_price(rs[k].price);
                let is_lowest: bool = match lowest {
                    Some(b) => b == i,
                    None => false,
                };
                let raw = if is_lowest {
                    joined(&joined("\x1b[32m", &price), "\x1b[0m")
                } else {
                    price.clone()
                };
                push_cell(out, &price, &hyperlink(&rs[k].url, &raw), width);
            },
            None => {
                push_cell(out, "-", "-", width);
            },
        }
        proof {
            assert(out@ =~= before + f(i as int));
            assert(out@ =~= old(out)@ + pieces(i + 1, f));
        }
        i += 1;
    }
}

/// Adds the cells of the totals.
fn push_totals(
    out: &mut String,
    shown: &Vec<String>,
    rs: &Vec<StoreResult>,
    cols: &Vec<String>,
    widths: &Vec<usize>,
)
    requires
        shown@.len() <= u32::MAX,
        widths@.len() == cols@.len(),
        forall|i: int|
            0 <= i < cols@.len() ==> #[trigger] widths@[i] == column_width(
                texts(shown@),
                listings(rs@),
                texts(cols@)[i],
            ),
    ensures
        final(out)@ == old(out)@ + pieces(
            cols@.len() as int,
            total_cell(texts(shown@), listings(rs@), texts(cols@)),
        ),
{
    let ghost f = total_cell(texts(shown@), listings(rs@), texts(cols@));
    let mut i: usize = 0;
    assert(out@ =~= old(out)@ + pieces(0, f));
    while i < cols.len()
        invariant
            f == total_cell(texts(shown@), listings(rs@), texts(cols@)),
            shown@.len() <= u32::MAX,
            widths@.len() == cols@.len(),
            forall|k: int|
                0 <= k < cols@.len() ==> #[trigger] widths@[k] == column_width(
                    texts(shown@),
                    listings(rs@),
                    texts(cols@)[k],
                ),
            i <= cols@.len(),
            out@ == old(out)@ + pieces(i as int, f),
        decreases cols@.len() - i,
    {
        let ghost before = out@;
        out.append(" | ");
        let width: usize = widths[i];
        assert(width == column_width(texts(shown@), listings(rs@), texts(cols@)[i as int]));
        let sum: u64 = total_of(shown, rs, &cols[i]);
        if sum > 0 {
            let price = format_price_u64(sum);
            push_cell(out, &price, &price, width);
        } else {
            push_cell(out, "-", "-", width);
        }
        proof {
            assert(out@ =~= before + f(i as int));
            assert(out@ =~= old(out)@ + pieces(i + 1, f));
        }
        i += 1;
    }
}

/// The table of storefronts; nothing if they have none of the cards.
pub fn render_store_table(cards: &Vec<String>, rs: &Vec<StoreResult>) -> (out: String)
    requires
        cards@.len() <= u32::MAX,
    ensures
        out@ == store_table(texts(cards@), listings(rs@)),
{
    let shown = shown_of(cards, rs);
    let ghost sh = texts(shown@);
    let ghost ls = listings(rs@);
    let mut out = String::new();
    assert(sh.len() == shown@.len());
    if shown.len() == 0 {
        assert(out@ =~= Seq::empty());
        return out;
    }
    let cols = columns_of(rs);
    let ghost cs = texts(cols@);
    let widths = widths_of(&shown, rs, &cols);
    let first: usize = widest_of(&shown, 4);
    let rule: usize = rule_of(&shown, rs, &cols, &widths);
    push_left(&mut out, "Card", first);
    push_header(&mut out, &shown, rs, &cols, &widths);
    out.append("\n");
    push_repeated(&mut out, '-', rule);
    out.append("\n");
    let ghost head = out@;
    let ghost f = card_row(sh, ls, cs);
    let mut k: usize = 0;
    assert(out@ =~= head + pieces(0, f));
    while k < shown.len()
        invariant
            sh == texts(shown@),
            ls == listings(rs@),
            cs == texts(cols@),
            f == card_row(sh, ls, cs),
            first == widest(sh, 4),
            widths@.len() == cols@.len(),
            forall|i: int|
                0 <= i < cols@.len() ==> #[trigger] widths@[i] == column_width(
                    texts(shown@),
                    listings(rs@),
                    texts(cols@)[i],
                ),
            k <= shown@.len(),
            out@ == head + pieces(k as int, f),
        decreases shown@.len() - k,
    {
        let ghost before = out@;
        push_left(&mut out, &shown[k], first);
        push_offers(&mut out, &shown, rs, &cols, &widths, &shown[k]);
        out.append("\n");
        proof {
            assert(sh[k as int] == shown@[k as int]@);
            assert(out@ =~= before + f(k as int));
            assert(out@ =~= head + pieces(k + 1, f));
        }
        k += 1;
    }
    push_repeated(&mut out, '-', rule);
    out.append("\n");
    push_left(&mut out, "Total", first);
    push_totals(&mut out, &shown, rs, &cols, &widths);
    out.append("\n");
    assert(out@ =~= store_table(texts(cards@), ls));
    out
}

} // verus!
