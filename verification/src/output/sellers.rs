//! The sellers on CardMarket: which cards each has, and at what price.

use crate::decklist::{order_of, order_texts, text_before, Order};
use crate::output::stores::{
    best_index, columns, columns_of, offer, shown_cards, shown_of, widest, widest_of,
};
use crate::output::{
    abbreviate, cell, format_price, format_price_u64, hyperlink, linked, pieces, plural, plural_of,
    price_text, push_cell, push_repeated, repeated, short_name,
};
use crate::rows::{lemma_views_push, views};
use crate::stores::cardmarket::{pick_seller, rows_of_seller};
use crate::stores::{listings, Listing, StoreResult};
use crate::text::{begins, decimal, decimal_text, starts_with, texts};
use vstd::prelude::*;

verus! {

/// How many sellers are shown, over all categories.
pub const MAX_SHOWN: usize = 3;

/// CardMarket's categories of sellers.
#[derive(Debug, PartialEq, Eq, Structural, Clone, Copy)]
pub enum Category {
    Norwegian,
    Powerseller,
    Private,
}

impl Category {
    pub open spec fn heading(self) -> Seq<char> {
        match self {
            Category::Norwegian => "Norwegian sellers"@,
            Category::Powerseller => "Int Powersellers"@,
            Category::Private => "Int Private sellers"@,
        }
    }

    fn label(self) -> (label: &'static str)
        ensures
            label@ == self.heading(),
    {
        match self {
            Category::Norwegian => "Norwegian sellers",
            Category::Powerseller => "Int Powersellers",
            Category::Private => "Int Private sellers",
        }
    }
}

pub open spec fn category_of(seller: Seq<char>) -> Option<Category> {
    if starts_with(seller, "cardmarket-int-private.com:"@) {
        Some(Category::Private)
    } else if starts_with(seller, "cardmarket-int.com:"@) {
        Some(Category::Powerseller)
    } else if starts_with(seller, "cardmarket.com:"@) {
        Some(Category::Norwegian)
    } else {
        None
    }
}

/// The category of a seller.
pub fn categorize(seller: &str) -> (category: Option<Category>)
    ensures
        category == category_of(seller@),
{
    if begins(seller, "cardmarket-int-private.com:") {
        Some(Category::Private)
    } else if begins(seller, "cardmarket-int.com:") {
        Some(Category::Powerseller)
    } else if begins(seller, "cardmarket.com:") {
        Some(Category::Norwegian)
    } else {
        None
    }
}

/// What a seller asks for a card.
pub struct SellerLine {
    pub card: String,
    pub price: u32,
    pub url: String,
}

/// A `SellerLine` as plain values.
pub struct Asked {
    pub card: Seq<char>,
    pub price: u32,
    pub url: Seq<char>,
}

impl View for SellerLine {
    type V = Asked;

    open spec fn view(&self) -> Asked {
        Asked { card: self.card@, price: self.price, url: self.url@ }
    }
}

/// What a seller asks for each of the cards that they have.
pub open spec fn entries(cards: Seq<Seq<char>>, rs: Seq<Listing>, seller: Seq<char>) -> Seq<Asked>
    decreases cards.len(),
{
    if cards.len() == 0 {
        Seq::empty()
    } else {
        let rest = entries(cards.drop_last(), rs, seller);
        match offer(rs, cards.last(), seller) {
            Some(r) => rest.push(Asked { card: cards.last(), price: r.price, url: r.url }),
            None => rest,
        }
    }
}

pub open spec fn count(cards: Seq<Seq<char>>, rs: Seq<Listing>, seller: Seq<char>) -> nat {
    entries(cards, rs, seller).len()
}

/// What lines cost together.
pub open spec fn sum(lines: Seq<Asked>) -> nat
    decreases lines.len(),
{
    if lines.len() == 0 {
        0
    } else {
        sum(lines.drop_last()) + lines.last().price as nat
    }
}

/// A seller goes before another: more cards, or as many and a lower name.
pub open spec fn goes_before(
    cards: Seq<Seq<char>>,
    rs: Seq<Listing>,
    a: Seq<char>,
    b: Seq<char>,
) -> bool {
    count(cards, rs, a) > count(cards, rs, b) || (count(cards, rs, a) == count(cards, rs, b)
        && text_before(a, b))
}

/// A seller put behind those that it does not go before.
pub open spec fn insert_seller(
    cards: Seq<Seq<char>>,
    rs: Seq<Listing>,
    sellers: Seq<Seq<char>>,
    new: Seq<char>,
) -> Seq<Seq<char>>
    decreases sellers.len(),
{
    if sellers.len() == 0 || !goes_before(cards, rs, new, sellers.last()) {
        sellers.push(new)
    } else {
        insert_seller(cards, rs, sellers.drop_last(), new).push(sellers.last())
    }
}

/// The sellers of a category that have a card, in order.
pub open spec fn ranked(
    cards: Seq<Seq<char>>,
    rs: Seq<Listing>,
    stores: Seq<Seq<char>>,
    category: Category,
) -> Seq<Seq<char>>
    decreases stores.len(),
{
    if stores.len() == 0 {
        Seq::empty()
    } else {
        let rest = ranked(cards, rs, stores.drop_last(), category);
        if category_of(stores.last()) == Some(category) && count(cards, rs, stores.last()) > 0 {
            insert_seller(cards, rs, rest, stores.last())
        } else {
            rest
        }
    }
}

/// A card in a seller's list.
pub open spec fn card_line(lines: Seq<Asked>, width: int) -> spec_fn(int) -> Seq<char> {
    |i: int|
        "    "@ + cell(lines[i].card, lines[i].card, width) + "  "@ + linked(
            lines[i].url,
            price_text(lines[i].price as nat),
        ) + "\n"@
}

/// A name with the number of cards.
pub open spec fn name_line(seller: Seq<char>, n: nat) -> Seq<char> {
    "  "@ + short_name(seller) + " ("@ + decimal(n) + " card"@ + plural(n) + "):\n"@
}

/// A seller's list.
pub open spec fn stand_text(
    cards: Seq<Seq<char>>,
    rs: Seq<Listing>,
    seller: Seq<char>,
    width: int,
) -> Seq<char> {
    let lines = entries(cards, rs, seller);
    name_line(seller, lines.len()) + pieces(lines.len() as int, card_line(lines, width)) + "    "@
        + repeated('-', (width + 16) as nat) + "\n"@ + "    Subtotal: "@ + price_text(sum(lines))
        + "\n"@
}

pub open spec fn seller_text(
    cards: Seq<Seq<char>>,
    rs: Seq<Listing>,
    sellers: Seq<Seq<char>>,
    width: int,
) -> spec_fn(int) -> Seq<char> {
    |i: int| stand_text(cards, rs, sellers[i], width)
}

/// How many cards the sellers from `from` on have.
pub open spec fn cards_from(
    cards: Seq<Seq<char>>,
    rs: Seq<Listing>,
    sellers: Seq<Seq<char>>,
    from: nat,
) -> nat
    decreases sellers.len(),
{
    if sellers.len() <= from {
        0
    } else {
        cards_from(cards, rs, sellers.drop_last(), from) + count(cards, rs, sellers.last())
    }
}

/// What those cards cost.
pub open spec fn cost_from(
    cards: Seq<Seq<char>>,
    rs: Seq<Listing>,
    sellers: Seq<Seq<char>>,
    from: nat,
) -> nat
    decreases sellers.len(),
{
    if sellers.len() <= from {
        0
    } else {
        cost_from(cards, rs, sellers.drop_last(), from) + sum(entries(cards, rs, sellers.last()))
    }
}

/// The line on the sellers that are not shown.
pub open spec fn others_text(
    cards: Seq<Seq<char>>,
    rs: Seq<Listing>,
    sellers: Seq<Seq<char>>,
    visible: nat,
) -> Seq<char> {
    let hidden = (sellers.len() - visible) as nat;
    if sellers.len() <= visible {
        Seq::empty()
    } else {
        "\n  ... and "@ + decimal(hidden) + " more seller"@ + plural(hidden) + " ("@ + decimal(
            cards_from(cards, rs, sellers, visible),
        ) + " cards, "@ + price_text(cost_from(cards, rs, sellers, visible)) + " total)\n"@
    }
}

/// How many sellers of each category are shown.
pub struct Slots {
    pub norwegian: nat,
    pub powerseller: nat,
    pub private: nat,
}

/// The sellers of each category, in order.
pub struct Sellers {
    pub norwegian: Seq<Seq<char>>,
    pub powerseller: Seq<Seq<char>>,
    pub private: Seq<Seq<char>>,
}

pub open spec fn all_sellers(cards: Seq<Seq<char>>, rs: Seq<Listing>) -> Sellers {
    Sellers {
        norwegian: ranked(cards, rs, columns(rs), Category::Norwegian),
        powerseller: ranked(cards, rs, columns(rs), Category::Powerseller),
        private: ranked(cards, rs, columns(rs), Category::Private),
    }
}

/// The first `n` of them are shown; the next one is not.
pub open spec fn next_seller(sellers: Seq<Seq<char>>, n: nat) -> Option<Seq<char>> {
    if n < sellers.len() {
        Some(sellers[n as int])
    } else {
        None
    }
}

/// A seller that no other one goes before.
pub open spec fn leads(
    cards: Seq<Seq<char>>,
    rs: Seq<Listing>,
    a: Option<Seq<char>>,
    b: Option<Seq<char>>,
) -> bool {
    match (a, b) {
        (None, _) => false,
        (Some(x), None) => true,
        (Some(x), Some(y)) => !goes_before(cards, rs, y, x),
    }
}

/// One more slot, for the first of all sellers that are not shown yet.
pub open spec fn one_more(
    cards: Seq<Seq<char>>,
    rs: Seq<Listing>,
    all: Sellers,
    shown: Slots,
) -> Slots {
    let no = next_seller(all.norwegian, shown.norwegian);
    let power = next_seller(all.powerseller, shown.powerseller);
    let private = next_seller(all.private, shown.private);
    if leads(cards, rs, no, power) && leads(cards, rs, no, private) {
        Slots { norwegian: shown.norwegian + 1, ..shown }
    } else if leads(cards, rs, power, private) {
        Slots { powerseller: shown.powerseller + 1, ..shown }
    } else if private is Some {
        Slots { private: shown.private + 1, ..shown }
    } else {
        shown
    }
}

pub open spec fn filled(
    cards: Seq<Seq<char>>,
    rs: Seq<Listing>,
    all: Sellers,
    shown: Slots,
    free: nat,
) -> Slots
    decreases free,
{
    if free == 0 {
        shown
    } else {
        filled(cards, rs, all, one_more(cards, rs, all, shown), (free - 1) as nat)
    }
}

/// The first seller of a category has a slot.
pub open spec fn first_slot(sellers: Seq<Seq<char>>) -> nat {
    if sellers.len() > 0 {
        1
    } else {
        0
    }
}

/// One seller of each category that has any; the remaining slots go to the first
/// of all the others.
pub open spec fn slots(cards: Seq<Seq<char>>, rs: Seq<Listing>) -> Slots {
    let all = all_sellers(cards, rs);
    let no = first_slot(all.norwegian);
    let power = first_slot(all.powerseller);
    let private = first_slot(all.private);
    filled(
        cards,
        rs,
        all,
        Slots { norwegian: no, powerseller: power, private },
        (MAX_SHOWN - no - power - private) as nat,
    )
}

/// The heading of a category.
pub open spec fn heading_text(category: Category, total: nat, visible: nat) -> Seq<char> {
    "\n"@ + repeated('=', 50) + "\n"@ + "  "@ + category.heading() + " ("@ + decimal(total)
        + " total, showing "@ + decimal(visible) + ")\n"@ + repeated('=', 50) + "\n"@
}

/// The sellers of a category; nothing if there are none.
pub open spec fn category_text(
    cards: Seq<Seq<char>>,
    rs: Seq<Listing>,
    category: Category,
    sellers: Seq<Seq<char>>,
    visible: nat,
) -> Seq<char> {
    if sellers.len() == 0 {
        Seq::empty()
    } else {
        heading_text(category, sellers.len(), visible) + pieces(
            visible as int,
            seller_text(cards, rs, sellers, widest(shown_cards(cards, rs), 10) as int),
        ) + others_text(cards, rs, sellers, visible)
    }
}

/// The sellers by category; nothing if there are no listings.
pub open spec fn seller_section(cards: Seq<Seq<char>>, rs: Seq<Listing>) -> Seq<char> {
    if rs.len() == 0 {
        Seq::empty()
    } else {
        let all = all_sellers(cards, rs);
        let shown = slots(cards, rs);
        category_text(cards, rs, Category::Norwegian, all.norwegian, shown.norwegian)
            + category_text(
            cards,
            rs,
            Category::Powerseller,
            all.powerseller,
            shown.powerseller,
        ) + category_text(cards, rs, Category::Private, all.private, shown.private) + "\n"@
    }
}

proof fn lemma_filled(
    cards: Seq<Seq<char>>,
    rs: Seq<Listing>,
    all: Sellers,
    shown: Slots,
    free: nat,
)
    requires
        shown.norwegian <= all.norwegian.len(),
        shown.powerseller <= all.powerseller.len(),
        shown.private <= all.private.len(),
    ensures
        ({
            let end = filled(cards, rs, all, shown, free);
            let had = shown.norwegian + shown.powerseller + shown.private;
            let has = end.norwegian + end.powerseller + end.private;
            let most = all.norwegian.len() + all.powerseller.len() + all.private.len();
            &&& shown.norwegian <= end.norwegian <= all.norwegian.len()
            &&& shown.powerseller <= end.powerseller <= all.powerseller.len()
            &&& shown.private <= end.private <= all.private.len()
            &&& has == if had + free <= most {
                had + free
            } else {
                most
            }
        }),
    decreases free,
{
    if free > 0 {
        lemma_filled(cards, rs, all, one_more(cards, rs, all, shown), (free - 1) as nat);
    }
}

/// Every category with a seller has at least one shown, and together as many are
/// shown as there are slots or sellers.
pub proof fn law_slots(cards: Seq<Seq<char>>, rs: Seq<Listing>)
    ensures
        ({
            let all = all_sellers(cards, rs);
            let shown = slots(cards, rs);
            let most = all.norwegian.len() + all.powerseller.len() + all.private.len();
            &&& first_slot(all.norwegian) <= shown.norwegian <= all.norwegian.len()
            &&& first_slot(all.powerseller) <= shown.powerseller <= all.powerseller.len()
            &&& first_slot(all.private) <= shown.private <= all.private.len()
            &&& shown.norwegian + shown.powerseller + shown.private == if most <= MAX_SHOWN {
                most
            } else {
                MAX_SHOWN as nat
            }
        }),
{
    let all = all_sellers(cards, rs);
    let no = first_slot(all.norwegian);
    let power = first_slot(all.powerseller);
    let private = first_slot(all.private);
    lemma_filled(
        cards,
        rs,
        all,
        Slots { norwegian: no, powerseller: power, private },
        (MAX_SHOWN - no - power - private) as nat,
    );
}

/// A store's own rows have the store's offers.
proof fn lemma_offer_of_seller(rs: Seq<Listing>, card: Seq<char>, seller: Seq<char>)
    ensures
        offer(rows_of_seller(rs, seller), card, seller) == offer(rs, card, seller),
    decreases rs.len(),
{
    lemma_offer_step(rs, card, seller);
    if rs.len() > 0 {
        let init = rs.drop_last();
        lemma_offer_of_seller(init, card, seller);
        let rest = rows_of_seller(init, seller);
        if rs.last().store == seller {
            let own = rest.push(rs.last());
            assert(own.drop_last() =~= rest);
            lemma_offer_step(own, card, seller);
        }
    }
}

/// The cheapest listing among all from the cheapest among all but the last.
proof fn lemma_offer_step(rs: Seq<Listing>, card: Seq<char>, store: Seq<char>)
    ensures
        crate::output::stores::best_at(rs, card, store) matches Some(i) ==> 0 <= i < rs.len(),
        rs.len() > 0 ==> offer(rs, card, store) == {
            let before = offer(rs.drop_last(), card, store);
            let last = rs.last();
            if last.card == card && last.store == store && (before matches Some(b) ==> last.price
                < b.price) {
                Some(last)
            } else {
                before
            }
        },
    decreases rs.len(),
{
    if rs.len() > 0 {
        lemma_offer_step(rs.drop_last(), card, store);
    }
}

/// What a seller asks for each of the cards that they have.
fn entries_of(cards: &Vec<String>, rs: &Vec<StoreResult>, seller: &String) -> (lines: Vec<SellerLine>)
    ensures
        views(lines@) == entries(texts(cards@), listings(rs@), seller@),
        lines@.len() <= cards@.len(),
{
    let ghost names = texts(cards@);
    let ghost all = listings(rs@);
    let own = pick_seller(rs, seller);
    let mut lines: Vec<SellerLine> = Vec::new();
    let mut i: usize = 0;
    assert(names.take(0) =~= Seq::empty());
    assert(views(lines@) =~= Seq::empty());
    while i < cards.len()
        invariant
            names == texts(cards@),
            all == listings(rs@),
            listings(own@) == rows_of_seller(all, seller@),
            i <= cards@.len(),
            lines@.len() <= i,
            views(lines@) == entries(names.take(i as int), all, seller@),
        decreases cards@.len() - i,
    {
        proof {
            let t = names.take(i + 1);
            assert(t.drop_last() =~= names.take(i as int));
            assert(t.last() == cards@[i as int]@);
            lemma_offer_of_seller(all, cards@[i as int]@, seller@);
        }
        if let Some(k) = best_index(&own, &cards[i], seller) {
            let line = SellerLine {
                card: cards[i].clone(),
                price: own[k].price,
                url: own[k].url.clone(),
            };
            proof {
                lemma_views_push(lines@, line);
            }
            lines.push(line);
        }
        i += 1;
    }
    assert(names.take(i as int) =~= names);
    lines
}

/// A seller with its lines.
struct Stand {
    seller: String,
    lines: Vec<SellerLine>,
}

spec fn stand_ok(s: Stand, cards: Seq<Seq<char>>, rs: Seq<Listing>) -> bool {
    views(s.lines@) == entries(cards, rs, s.seller@) && s.lines@.len() <= cards.len()
}

spec fn sellers_of(stands: Seq<Stand>) -> Seq<Seq<char>> {
    stands.map_values(|s: Stand| s.seller@)
}

spec fn stands_ok(stands: Seq<Stand>, cards: Seq<Seq<char>>, rs: Seq<Listing>) -> bool {
    forall|i: int| 0 <= i < stands.len() ==> stand_ok(#[trigger] stands[i], cards, rs)
}

/// Does a seller go before another?
fn stand_before(
    a: &Stand,
    b: &Stand,
    Ghost(cards): Ghost<Seq<Seq<char>>>,
    Ghost(rs): Ghost<Seq<Listing>>,
) -> (before: bool)
    requires
        stand_ok(*a, cards, rs),
        stand_ok(*b, cards, rs),
    ensures
        before == goes_before(cards, rs, a.seller@, b.seller@),
{
    proof {
        assert(views(a.lines@).len() == a.lines@.len());
        assert(views(b.lines@).len() == b.lines@.len());
        lemma_order(a.seller@, b.seller@);
    }
    a.lines.len() > b.lines.len() || (a.lines.len() == b.lines.len() && order_texts(
        &a.seller,
        &b.seller,
    ) == Order::Before)
}

/// Puts a seller behind those that it does not go before.
fn insert_stand(
    stands: &mut Vec<Stand>,
    new: Stand,
    Ghost(cards): Ghost<Seq<Seq<char>>>,
    Ghost(rs): Ghost<Seq<Listing>>,
)
    requires
        stands_ok(old(stands)@, cards, rs),
        stand_ok(new, cards, rs),
    ensures
        stands_ok(final(stands)@, cards, rs),
        sellers_of(final(stands)@) == insert_seller(cards, rs, sellers_of(old(stands)@), new.seller@),
        final(stands)@.len() == old(stands)@.len() + 1,
{
    let ghost all = sellers_of(stands@);
    let ghost first = stands@;
    let mut at: usize = stands.len();
    proof {
        assert(all.take(at as int) =~= all);
        assert(insert_seller(cards, rs, all, new.seller@) =~= insert_seller(
            cards,
            rs,
            all.take(at as int),
            new.seller@,
        ) + all.skip(at as int));
    }
    while at > 0
        invariant_except_break
            at <= stands@.len(),
        invariant
            stands@ == first,
            all == sellers_of(first),
            at <= first.len(),
            stands_ok(first, cards, rs),
            stand_ok(new, cards, rs),
            insert_seller(cards, rs, all, new.seller@) == insert_seller(
                cards,
                rs,
                all.take(at as int),
                new.seller@,
            ) + all.skip(at as int),
        ensures
            at == 0 || !goes_before(cards, rs, new.seller@, all[at - 1]),
        decreases at,
    {
        let prev = &stands[at - 1];
        proof {
            assert(stand_ok(first[at - 1], cards, rs));
            assert(all[at - 1] == prev.seller@);
        }
        if !stand_before(&new, prev, Ghost(cards), Ghost(rs)) {
            break;
        }
        proof {
            let t = all.take(at as int);
            assert(t.drop_last() =~= all.take(at - 1));
            assert(t.last() == all[at - 1]);
            let rest = insert_seller(cards, rs, all.take(at - 1), new.seller@);
            assert(rest.push(all[at - 1]) + all.skip(at as int) =~= rest + all.skip(at - 1));
        }
        at -= 1;
    }
    proof {
        let t = all.take(at as int);
        assert(t.len() > 0 ==> t.last() == all[at - 1]);
        assert(t.push(new.seller@) + all.skip(at as int) =~= all.insert(at as int, new.seller@));
    }
    let ghost n = new;
    stands.insert(at, new);
    proof {
        assert(sellers_of(stands@) =~= all.insert(at as int, n.seller@));
        assert forall|i: int| 0 <= i < stands@.len() implies stand_ok(
            #[trigger] stands@[i],
            cards,
            rs,
        ) by {
            if i < at {
                assert(stands@[i] == first[i]);
            } else if i > at {
                assert(stands@[i] == first[i - 1]);
            }
        }
    }
}

/// No text comes before itself.
proof fn lemma_order(a: Seq<char>, b: Seq<char>)
    ensures
        (order_of(a, b) == Order::Before) == text_before(a, b),
{
    if a == b {
        crate::decklist::lemma_not_before_self(a);
    }
}

/// The sellers of a category that have a card, in order.
fn stands_of(cards: &Vec<String>, rs: &Vec<StoreResult>, category: Category) -> (stands: Vec<Stand>)
    ensures
        sellers_of(stands@) == ranked(
            texts(cards@),
            listings(rs@),
            columns(listings(rs@)),
            category,
        ),
        stands_ok(stands@, texts(cards@), listings(rs@)),
        stands@.len() <= rs@.len(),
{
    let ghost names = texts(cards@);
    let ghost all = listings(rs@);
    let cols = columns_of(rs);
    let ghost cs = texts(cols@);
    proof {
        lemma_columns_len(all);
    }
    let mut stands: Vec<Stand> = Vec::new();
    let mut i: usize = 0;
    assert(cs.take(0) =~= Seq::empty());
    assert(sellers_of(stands@) =~= Seq::empty());
    while i < cols.len()
        invariant
            names == texts(cards@),
            all == listings(rs@),
            cs == texts(cols@),
            cols@.len() <= rs@.len(),
            i <= cols@.len(),
            stands@.len() <= i,
            stands_ok(stands@, names, all),
            sellers_of(stands@) == ranked(names, all, cs.take(i as int), category),
        decreases cols@.len() - i,
    {
        proof {
            let t = cs.take(i + 1);
            assert(t.drop_last() =~= cs.take(i as int));
            assert(t.last() == cols@[i as int]@);
        }
        let fits: bool = match categorize(&cols[i]) {
            Some(c) => c == category,
            None => false,
        };
        if fits {
            let lines = entries_of(cards, rs, &cols[i]);
            assert(views(lines@).len() == lines@.len());
            if lines.len() > 0 {
                let new = Stand { seller: cols[i].clone(), lines };
                insert_stand(&mut stands, new, Ghost(names), Ghost(all));
            }
        }
        i += 1;
    }
    assert(cs.take(i as int) =~= cs);
    stands
}

proof fn lemma_columns_len(rs: Seq<Listing>)
    ensures
        columns(rs).len() <= rs.len(),
    decreases rs.len(),
{
    if rs.len() > 0 {
        lemma_columns_len(rs.drop_last());
    }
}

/// What lines cost together.
fn sum_of(lines: &Vec<SellerLine>) -> (total: u64)
    requires
        lines@.len() <= u32::MAX,
    ensures
        total == sum(views(lines@)),
        total <= lines@.len() * 0xffff_ffff,
{
    let ghost all = views(lines@);
    let mut total: u64 = 0;
    let mut i: usize = 0;
    assert(all.take(0) =~= Seq::empty());
    while i < lines.len()
        invariant
            all == views(lines@),
            lines@.len() <= u32::MAX,
            i <= lines@.len(),
            total <= i * 0xffff_ffff,
            total == sum(all.take(i as int)),
        decreases lines@.len() - i,
    {
        proof {
            let t = all.take(i + 1);
            assert(t.drop_last() =~= all.take(i as int));
            assert(t.last() == lines@[i as int]@);
        }
        total = total + lines[i].price as u64;
        i += 1;
    }
    assert(all.take(i as int) =~= all);
    total
}

/// Adds cards with their prices.
pub(crate) fn push_lines(out: &mut String, lines: &Vec<SellerLine>, width: usize)
    ensures
        final(out)@ == old(out)@ + pieces(
            lines@.len() as int,
            card_line(views(lines@), width as int),
        ),
{
    let ghost f = card_line(views(lines@), width as int);
    let mut i: usize = 0;
    assert(out@ =~= old(out)@ + pieces(0, f));
    while i < lines.len()
        invariant
            f == card_line(views(lines@), width as int),
            i <= lines@.len(),
            out@ == old(out)@ + pieces(i as int, f),
        decreases lines@.len() - i,
    {
        let ghost before = out@;
        let line = &lines[i];
        out.append("    ");
        push_cell(out, &line.card, &line.card, width);
        out.append("  ");
        out.append(&hyperlink(&line.url, &format_price(line.price)));
        out.append("\n");
        proof {
            assert(views(lines@)[i as int] == line@);
            assert(out@ =~= before + f(i as int));
            assert(out@ =~= old(out)@ + pieces(i + 1, f));
        }
        i += 1;
    }
}

/// Adds a name with the number of cards.
pub(crate) fn push_name_line(out: &mut String, seller: &str, n: usize)
    ensures
        final(out)@ == old(out)@ + name_line(seller@, n as nat),
{
    out.append("  ");
    out.append(&abbreviate(seller));
    out.append(" (");
    out.append(&decimal_text(n as u64));
    out.append(" card");
    out.append(plural_of(n));
    out.append("):\n");
    assert(out@ =~= old(out)@ + name_line(seller@, n as nat));
}

/// Adds the line on the sellers that are not shown.
fn push_others(
    out: &mut String,
    stands: &Vec<Stand>,
    visible: usize,
    Ghost(cards): Ghost<Seq<Seq<char>>>,
    Ghost(rs): Ghost<Seq<Listing>>,
)
    requires
        stands_ok(stands@, cards, rs),
        visible <= stands@.len(),
        cards.len() * stands@.len() <= u32::MAX,
    ensures
        final(out)@ == old(out)@ + others_text(cards, rs, sellers_of(stands@), visible as nat),
{
    let ghost sellers = sellers_of(stands@);
    let hidden: usize = stands.len() - visible;
    if hidden == 0 {
        assert(out@ =~= old(out)@ + others_text(cards, rs, sellers, visible as nat));
        return;
    }
    let mut n: usize = 0;
    let mut cost: u64 = 0;
    let mut i: usize = visible;
    while i < stands.len()
        invariant
            stands_ok(stands@, cards, rs),
            sellers == sellers_of(stands@),
            cards.len() * stands@.len() <= u32::MAX,
            visible <= i <= stands@.len(),
            n == cards_from(cards, rs, sellers.take(i as int), visible as nat),
            cost == cost_from(cards, rs, sellers.take(i as int), visible as nat),
            n <= cards.len() * i,
            cost <= n * 0xffff_ffff,
        decreases stands@.len() - i,
    {
        let stand = &stands[i];
        proof {
            assert(stand_ok(stands@[i as int], cards, rs));
            assert(views(stand.lines@).len() == stand.lines@.len());
            let t = sellers.take(i + 1);
            assert(t.drop_last() =~= sellers.take(i as int));
            assert(t.last() == stand.seller@);
            lemma_room(cards.len(), i as nat, stands@.len(), stand.lines@.len());
        }
        let k: usize = stand.lines.len();
        let more: u64 = sum_of(&stand.lines);
        proof {
            assert(n * 0xffff_ffff + k * 0xffff_ffff == (n + k) * 0xffff_ffff)
                by (nonlinear_arith);
        }
        n = n + k;
        cost = cost + more;
        i += 1;
    }
    assert(sellers.take(i as int) =~= sellers);
    out.append("\n  ... and ");
    out.append(&decimal_text(hidden as u64));
    out.append(" more seller");
    out.append(plural_of(hidden));
    out.append(" (");
    out.append(&decimal_text(n as u64));
    out.append(" cards, ");
    out.append(&format_price_u64(cost));
    out.append(" total)\n");
    assert(out@ =~= old(out)@ + others_text(cards, rs, sellers, visible as nat));
}

/// The lines of the first sellers and one more are within range.
proof fn lemma_room(cards: nat, i: nat, n: nat, k: nat)
    requires
        i < n,
        k <= cards,
        cards * n <= u32::MAX,
    ensures
        cards * i + k <= cards * (i + 1) <= u32::MAX,
        k <= u32::MAX,
{
    assert(cards * (i + 1) == cards * i + cards) by (nonlinear_arith);
    assert(cards * (i + 1) <= cards * n) by (nonlinear_arith)
        requires
            i + 1 <= n,
    ;
    assert(0 <= cards * i) by (nonlinear_arith);
}

/// Adds the heading of a category.
fn push_heading(out: &mut String, category: Category, total: usize, visible: usize)
    ensures
        final(out)@ == old(out)@ + heading_text(category, total as nat, visible as nat),
{
    out.append("\n");
    push_repeated(out, '=', 50);
    out.append("\n");
    out.append("  ");
    out.append(category.label());
    out.append(" (");
    out.append(&decimal_text(total as u64));
    out.append(" total, showing ");
    out.append(&decimal_text(visible as u64));
    out.append(")\n");
    push_repeated(out, '=', 50);
    out.append("\n");
    assert(out@ =~= old(out)@ + heading_text(category, total as nat, visible as nat));
}

/// Adds a seller's list.
fn push_stand(
    out: &mut String,
    stand: &Stand,
    width: usize,
    Ghost(cards): Ghost<Seq<Seq<char>>>,
    Ghost(rs): Ghost<Seq<Listing>>,
)
    requires
        stand_ok(*stand, cards, rs),
        cards.len() <= u32::MAX,
    ensures
        final(out)@ == old(out)@ + stand_text(cards, rs, stand.seller@, width as int),
{
    assert(views(stand.lines@).len() == stand.lines@.len());
    push_name_line(out, &stand.seller, stand.lines.len());
    push_lines(out, &stand.lines, width);
    out.append("    ");
    push_repeated(out, '-', width);
    push_repeated(out, '-', 16);
    out.append("\n");
    out.append("    Subtotal: ");
    out.append(&format_price_u64(sum_of(&stand.lines)));
    out.append("\n");
    proof {
        assert(repeated('-', width as nat) + repeated('-', 16) =~= repeated(
            '-',
            (width + 16) as nat,
        ));
        assert(out@ =~= old(out)@ + stand_text(cards, rs, stand.seller@, width as int));
    }
}

/// Is there a next seller of one category that the next one of another does not
/// go before?
fn is_leading(
    a: &Vec<Stand>,
    at: usize,
    b: &Vec<Stand>,
    bt: usize,
    Ghost(cards): Ghost<Seq<Seq<char>>>,
    Ghost(rs): Ghost<Seq<Listing>>,
) -> (leading: bool)
    requires
        stands_ok(a@, cards, rs),
        stands_ok(b@, cards, rs),
    ensures
        leading == leads(
            cards,
            rs,
            next_seller(sellers_of(a@), at as nat),
            next_seller(sellers_of(b@), bt as nat),
        ),
{
    assert(sellers_of(a@).len() == a@.len() && sellers_of(b@).len() == b@.len());
    if at >= a.len() {
        return false;
    }
    if bt >= b.len() {
        return true;
    }
    assert(stand_ok(a@[at as int], cards, rs) && stand_ok(b@[bt as int], cards, rs));
    !stand_before(&b[bt], &a[at], Ghost(cards), Ghost(rs))
}

/// How many sellers of each category are shown.
fn slots_for(
    no: &Vec<Stand>,
    power: &Vec<Stand>,
    private: &Vec<Stand>,
    Ghost(cards): Ghost<Seq<Seq<char>>>,
    Ghost(rs): Ghost<Seq<Listing>>,
) -> (shown: (usize, usize, usize))
    requires
        stands_ok(no@, cards, rs),
        stands_ok(power@, cards, rs),
        stands_ok(private@, cards, rs),
        all_sellers(cards, rs) == (Sellers {
            norwegian: sellers_of(no@),
            powerseller: sellers_of(power@),
            private: sellers_of(private@),
        }),
    ensures
        slots(cards, rs) == (Slots {
            norwegian: shown.0 as nat,
            powerseller: shown.1 as nat,
            private: shown.2 as nat,
        }),
        shown.0 <= no@.len(),
        shown.1 <= power@.len(),
        shown.2 <= private@.len(),
        shown.0 + shown.1 + shown.2 <= MAX_SHOWN,
{
    let ghost all = all_sellers(cards, rs);
    proof {
        assert(sellers_of(no@).len() == no@.len());
        assert(sellers_of(power@).len() == power@.len());
        assert(sellers_of(private@).len() == private@.len());
    }
    let mut a: usize = if no.len() > 0 {
        1
    } else {
        0
    };
    let mut b: usize = if power.len() > 0 {
        1
    } else {
        0
    };
    let mut c: usize = if private.len() > 0 {
        1
    } else {
        0
    };
    let mut free: usize = MAX_SHOWN - a - b - c;
    while free > 0
        invariant
            stands_ok(no@, cards, rs),
            stands_ok(power@, cards, rs),
            stands_ok(private@, cards, rs),
            all == (Sellers {
                norwegian: sellers_of(no@),
                powerseller: sellers_of(power@),
                private: sellers_of(private@),
            }),
            sellers_of(no@).len() == no@.len(),
            sellers_of(power@).len() == power@.len(),
            sellers_of(private@).len() == private@.len(),
            a <= no@.len(),
            b <= power@.len(),
            c <= private@.len(),
            a + b + c + free <= MAX_SHOWN,
            slots(cards, rs) == filled(
                cards,
                rs,
                all,
                (Slots { norwegian: a as nat, powerseller: b as nat, private: c as nat }),
                free as nat,
            ),
        decreases free,
    {
        if is_leading(no, a, power, b, Ghost(cards), Ghost(rs)) && is_leading(
            no,
            a,
            private,
            c,
            Ghost(cards),
            Ghost(rs),
        ) {
            a += 1;
        } else if is_leading(power, b, private, c, Ghost(cards), Ghost(rs)) {
            b += 1;
        } else if c < private.len() {
            c += 1;
        }
        free -= 1;
    }
    (a, b, c)
}

/// Adds the sellers of a category.
fn push_category(
    out: &mut String,
    cards: &Vec<String>,
    rs: &Vec<StoreResult>,
    category: Category,
    stands: &Vec<Stand>,
    visible: usize,
    width: usize,
)
    requires
        cards@.len() * rs@.len() <= u32::MAX,
        stands_ok(stands@, texts(cards@), listings(rs@)),
        visible <= stands@.len() <= rs@.len(),
        width == widest(shown_cards(texts(cards@), listings(rs@)), 10),
    ensures
        final(out)@ == old(out)@ + category_text(
            texts(cards@),
            listings(rs@),
            category,
            sellers_of(stands@),
            visible as nat,
        ),
{
    let ghost names = texts(cards@);
    let ghost all = listings(rs@);
    let ghost sellers = sellers_of(stands@);
    assert(sellers.len() == stands@.len());
    if stands.len() == 0 {
        assert(out@ =~= old(out)@ + category_text(names, all, category, sellers, visible as nat));
        return;
    }
    push_heading(out, category, stands.len(), visible);
    let ghost head = out@;
    let ghost f = seller_text(names, all, sellers, width as int);
    let mut i: usize = 0;
    proof {
        lemma_product(cards@.len(), rs@.len(), stands@.len());
        assert(out@ =~= head + pieces(0, f));
    }
    while i < visible
        invariant
            names == texts(cards@),
            stands_ok(stands@, names, all),
            sellers == sellers_of(stands@),
            f == seller_text(names, all, sellers, width as int),
            visible <= stands@.len(),
            cards@.len() <= u32::MAX,
            i <= visible,
            out@ == head + pieces(i as int, f),
        decreases visible - i,
    {
        let ghost before = out@;
        let stand = &stands[i];
        assert(stand_ok(stands@[i as int], names, all));
        assert(views(stand.lines@).len() == stand.lines@.len());
        push_stand(out, stand, width, Ghost(names), Ghost(all));
        proof {
            assert(sellers[i as int] == stand.seller@);
            assert(f(i as int) == stand_text(names, all, sellers[i as int], width as int));
            assert(out@ =~= head + pieces(i + 1, f));
        }
        i += 1;
    }
    push_others(out, stands, visible, Ghost(names), Ghost(all));
    assert(out@ =~= old(out)@ + category_text(names, all, category, sellers, visible as nat));
}

proof fn lemma_product(a: nat, b: nat, c: nat)
    requires
        a * b <= u32::MAX,
        0 < c <= b,
    ensures
        a * c <= u32::MAX,
        a <= u32::MAX,
{
    assert(a * c <= a * b) by (nonlinear_arith)
        requires
            c <= b,
    ;
    assert(a <= a * c) by (nonlinear_arith)
        requires
            1 <= c,
    ;
}

/// The sellers by category; nothing if there are no listings.
pub fn render_cardmarket_section(cards: &Vec<String>, rs: &Vec<StoreResult>) -> (out: String)
    requires
        cards@.len() * rs@.len() <= u32::MAX,
    ensures
        out@ == seller_section(texts(cards@), listings(rs@)),
{
    let mut out = String::new();
    assert(listings(rs@).len() == rs@.len());
    if rs.len() == 0 {
        assert(out@ =~= seller_section(texts(cards@), listings(rs@)));
        return out;
    }
    let shown = shown_of(cards, rs);
    let width: usize = widest_of(&shown, 10);
    let no = stands_of(cards, rs, Category::Norwegian);
    let power = stands_of(cards, rs, Category::Powerseller);
    let private = stands_of(cards, rs, Category::Private);
    let shown = slots_for(&no, &power, &private, Ghost(texts(cards@)), Ghost(listings(rs@)));
    push_category(&mut out, cards, rs, Category::Norwegian, &no, shown.0, width);
    push_category(&mut out, cards, rs, Category::Powerseller, &power, shown.1, width);
    push_category(&mut out, cards, rs, Category::Private, &private, shown.2, width);
    out.append("\n");
    assert(out@ =~= seller_section(texts(cards@), listings(rs@)));
    out
}

} // verus!
