//! What the tables show.

use crate::decklist::{lemma_not_before_chain, text_before};
use crate::laws::shipping::{lemma_longer_prefix, lemma_no_prefix, lemma_prefix};
use crate::output::{price_text, short_name};
use crate::output::sellers::{
    all_sellers, cards_from, category_of, cost_from, count, entries, goes_before, insert_seller,
    law_slots, ranked, slots, sum, Asked, Category,
};
use crate::output::stores::{
    best_at, carried, column_total, columns, lowest_column, offer, on_cardmarket, shown_cards,
};
use crate::output::wizard::{bought_from, grand_total, store_totals, totals_at};
use crate::stores::Listing;
use crate::stores::printed::lemma_decimal;
use crate::text::{all_digits, decimal, digits_value, starts_with};
use crate::wizard::solution::{CardLine, WizardSolution};
use vstd::prelude::*;

verus! {

/// A price is shown in kroner: the amount in oere with a comma before its last two
/// digits, of which there are always two.
pub proof fn law_shown_prices(oere: nat)
    ensures
        ({
            let s = price_text(oere);
            let at = s.len() - 6;
            &&& at > 0
            &&& s[at] == ','
            &&& s.skip(at + 3) == " kr"@
            &&& all_digits(s.take(at) + s.subrange(at + 1, at + 3))
            &&& digits_value(s.take(at) + s.subrange(at + 1, at + 3)) == oere
        }),
{
    reveal_strlit(",0");
    reveal_strlit(",");
    reveal_strlit(" kr");
    let frac = oere % 100;
    let whole = decimal(oere / 100);
    let s = price_text(oere);
    lemma_decimal(oere / 100);
    lemma_decimal(frac);
    reveal_with_fuel(decimal, 3);
    let at = s.len() - 6;
    assert(at == whole.len());
    assert(s.take(at) =~= whole);
    let last = s.subrange(at + 1, at + 3);
    if frac < 10 {
        assert(last =~= seq!['0'] + decimal(frac));
    } else {
        assert(last =~= decimal(frac));
    }
    assert(s.skip(at + 3) =~= " kr"@);
    let digits = whole + last;
    let one = digits.drop_last();
    assert(one.drop_last() =~= whole);
    assert(last.drop_last().drop_last() =~= Seq::empty());
    reveal_with_fuel(digits_value, 3);
    assert(digits_value(digits) == 100 * digits_value(whole) + 10 * (last[0] as u32 - 0x30) + (
    last[1] as u32 - 0x30));
    if frac < 10 {
        let d = decimal(frac);
        assert(d.drop_last() =~= Seq::empty());
        assert(digits_value(d) == (d[0] as u32 - 0x30));
        assert(last[1] == d[0]);
    } else {
        let d = decimal(frac);
        assert(d.drop_last().drop_last() =~= Seq::empty());
        assert(digits_value(d) == 10 * (d[0] as u32 - 0x30) + (d[1] as u32 - 0x30));
    }
    assert forall|i: int| 0 <= i < digits.len() implies crate::text::is_digit(
        #[trigger] digits[i],
    ) by {
        if i < whole.len() {
            assert(digits[i] == whole[i]);
        } else if frac >= 10 {
            assert(digits[i] == decimal(frac)[i - whole.len()]);
        } else if i > whole.len() {
            assert(digits[i] == decimal(frac)[i - whole.len() - 1]);
        }
    }
}

/// Headers show a CardMarket seller with the kind in short, and a storefront
/// without its ending.
pub proof fn law_short_names(name: Seq<char>)
    ensures
        short_name("cardmarket.com:"@ + name) == "CM:"@ + name,
        short_name("cardmarket-int.com:"@ + name) == "CM-INT:"@ + name,
        short_name("cardmarket-int-private.com:"@ + name) == "CM-PRIV:"@ + name,
        category_of("cardmarket.com:"@ + name) == Some(Category::Norwegian),
        category_of("cardmarket-int.com:"@ + name) == Some(Category::Powerseller),
        category_of("cardmarket-int-private.com:"@ + name) == Some(Category::Private),
        on_cardmarket("cardmarket.com:"@ + name),
        on_cardmarket("cardmarket-int.com:"@ + name),
        on_cardmarket("cardmarket-int-private.com:"@ + name),
        !starts_with(name, "cardmarket"@) ==> !on_cardmarket(name) && category_of(name) is None,
{
    reveal_strlit("cardmarket");
    reveal_strlit("cardmarket.com:");
    reveal_strlit("cardmarket-int.com:");
    reveal_strlit("cardmarket-int-private.com:");
    let a = "cardmarket.com:"@ + name;
    let b = "cardmarket-int.com:"@ + name;
    let c = "cardmarket-int-private.com:"@ + name;
    lemma_prefix("cardmarket.com:"@, name);
    lemma_prefix("cardmarket-int.com:"@, name);
    lemma_prefix("cardmarket-int-private.com:"@, name);
    lemma_no_prefix(a, "cardmarket-int-private.com:"@, 10);
    lemma_no_prefix(a, "cardmarket-int.com:"@, 10);
    lemma_no_prefix(b, "cardmarket-int-private.com:"@, 14);
    assert(a.skip("cardmarket.com:"@.len() as int) =~= name);
    assert(b.skip("cardmarket-int.com:"@.len() as int) =~= name);
    assert(c.skip("cardmarket-int-private.com:"@.len() as int) =~= name);
    if !starts_with(name, "cardmarket"@) {
        lemma_longer_prefix(name, "cardmarket"@, "cardmarket.com:"@);
        lemma_longer_prefix(name, "cardmarket"@, "cardmarket-int.com:"@);
        lemma_longer_prefix(name, "cardmarket"@, "cardmarket-int-private.com:"@);
    }
}

/// The cheapest listing of a card at a store is one of them, none is cheaper, and
/// the first of the cheapest; there is none exactly where nothing is listed.
pub proof fn law_offer_is_the_cheapest(rs: Seq<Listing>, card: Seq<char>, store: Seq<char>)
    ensures
        match best_at(rs, card, store) {
            Some(i) => {
                &&& 0 <= i < rs.len()
                &&& offer(rs, card, store) == Some(rs[i])
                &&& rs[i].card == card && rs[i].store == store
                &&& forall|k: int|
                    0 <= k < rs.len() && (#[trigger] rs[k]).card == card && rs[k].store == store
                        ==> rs[i].price <= rs[k].price && (k < i ==> rs[i].price < rs[k].price)
            },
            None => offer(rs, card, store) is None && forall|k: int|
                0 <= k < rs.len() ==> !((#[trigger] rs[k]).card == card && rs[k].store == store),
        },
    decreases rs.len(),
{
    if rs.len() > 0 {
        let init = rs.drop_last();
        law_offer_is_the_cheapest(init, card, store);
        assert forall|k: int| 0 <= k < init.len() implies #[trigger] rs[k] == init[k] by {}
        if let Some(i) = best_at(rs, card, store) {
            assert forall|k: int|
                0 <= k < rs.len() && (#[trigger] rs[k]).card == card && rs[k].store
                    == store implies rs[i].price <= rs[k].price && (k < i ==> rs[i].price
                < rs[k].price) by {
                if k < init.len() {
                    assert(init[k].card == card && init[k].store == store);
                }
            }
        } else {
            assert forall|k: int| 0 <= k < rs.len() implies !((#[trigger] rs[k]).card == card
                && rs[k].store == store) by {
                if k < init.len() {
                    assert(!(init[k].card == card && init[k].store == store));
                }
            }
        }
    }
}

/// Every store that lists anything has one column, and no other store has one.
pub proof fn law_columns(rs: Seq<Listing>, store: Seq<char>)
    ensures
        columns(rs).no_duplicates(),
        columns(rs).contains(store) <==> exists|i: int|
            0 <= i < rs.len() && (#[trigger] rs[i]).store == store,
    decreases rs.len(),
{
    if rs.len() > 0 {
        let init = rs.drop_last();
        law_columns(init, store);
        law_columns(init, rs.last().store);
        let rest = columns(init);
        let all = columns(rs);
        if rest.contains(store) {
            let k = choose|k: int| 0 <= k < rest.len() && rest[k] == store;
            assert(all[k] == store);
            let i = choose|i: int| 0 <= i < init.len() && (#[trigger] init[i]).store == store;
            assert(rs[i].store == store);
        } else {
            if all.contains(store) {
                let k = choose|k: int| 0 <= k < all.len() && all[k] == store;
                assert(k == rest.len());
                assert(rs[rs.len() - 1].store == store);
            }
            if exists|i: int| 0 <= i < rs.len() && (#[trigger] rs[i]).store == store {
                let i = choose|i: int| 0 <= i < rs.len() && (#[trigger] rs[i]).store == store;
                if i < init.len() {
                    assert(init[i].store == store);
                }
                assert(all[rest.len() as int] == store);
            }
        }
    }
}

/// The cards with a listing are shown in order.
pub proof fn law_shown_cards(cards: Seq<Seq<char>>, rs: Seq<Listing>)
    ensures
        shown_cards(cards, rs) == cards.filter(
            |c: Seq<char>|
                exists|i: int| 0 <= i < rs.len() && (#[trigger] rs[i]).card == c,
        ),
    decreases cards.len(),
{
    reveal(Seq::filter);
    if cards.len() > 0 {
        law_shown_cards(cards.drop_last(), rs);
        let c = cards.last();
        if exists|i: int| 0 <= i < rs.len() && (#[trigger] rs[i]).card == c {
            let i = choose|i: int| 0 <= i < rs.len() && (#[trigger] rs[i]).card == c;
            assert(rs[i].card == c);
            assert(carried(rs, c));
        }
    }
}

/// The marked price of a card is the lowest in its row, and the first of those.
pub proof fn law_marked_price_is_lowest(rs: Seq<Listing>, card: Seq<char>, cols: Seq<Seq<char>>)
    ensures
        match lowest_column(rs, card, cols) {
            Some(b) => {
                &&& 0 <= b < cols.len()
                &&& offer(rs, card, cols[b]) is Some
                &&& forall|k: int|
                    0 <= k < cols.len() ==> ((#[trigger] offer(rs, card, cols[k])) matches Some(r)
                        ==> offer(rs, card, cols[b])->0.price <= r.price && (k < b ==> offer(
                        rs,
                        card,
                        cols[b],
                    )->0.price < r.price))
            },
            None => forall|k: int|
                0 <= k < cols.len() ==> (#[trigger] offer(rs, card, cols[k])) is None,
        },
    decreases cols.len(),
{
    if cols.len() > 0 {
        let init = cols.drop_last();
        law_marked_price_is_lowest(rs, card, init);
        assert forall|k: int| 0 <= k < init.len() implies #[trigger] offer(rs, card, cols[k])
            == offer(rs, card, init[k]) by {}
    }
}

/// The total of a column is the sum of the cheapest listings of the cards there,
/// card by card.
pub proof fn law_column_totals(
    shown: Seq<Seq<char>>,
    rs: Seq<Listing>,
    store: Seq<char>,
    card: Seq<char>,
)
    ensures
        column_total(Seq::empty(), rs, store) == 0,
        column_total(shown.push(card), rs, store) == column_total(shown, rs, store) + (match offer(
            rs,
            card,
            store,
        ) {
            Some(r) => r.price as int,
            None => 0,
        }),
{
    assert(shown.push(card).drop_last() =~= shown);
}

/// A seller's lines give the cheapest listing of each card that they have.
pub proof fn law_seller_lines(
    cards: Seq<Seq<char>>,
    rs: Seq<Listing>,
    seller: Seq<char>,
    card: Seq<char>,
)
    ensures
        entries(Seq::empty(), rs, seller).len() == 0,
        offer(rs, card, seller) is None ==> entries(cards.push(card), rs, seller) == entries(
            cards,
            rs,
            seller,
        ),
        offer(rs, card, seller) matches Some(r) ==> entries(cards.push(card), rs, seller)
            == entries(cards, rs, seller).push(Asked { card, price: r.price, url: r.url }),
        count(cards, rs, seller) == cards.filter(
            |c: Seq<char>| offer(rs, c, seller) is Some,
        ).len(),
{
    assert(cards.push(card).drop_last() =~= cards);
    lemma_count(cards, rs, seller);
}

proof fn lemma_count(cards: Seq<Seq<char>>, rs: Seq<Listing>, seller: Seq<char>)
    ensures
        entries(cards, rs, seller).len() == cards.filter(
            |c: Seq<char>| offer(rs, c, seller) is Some,
        ).len(),
    decreases cards.len(),
{
    reveal(Seq::filter);
    if cards.len() > 0 {
        lemma_count(cards.drop_last(), rs, seller);
    }
}

/// A subtotal is the sum of the prices, line by line.
pub proof fn law_subtotals(lines: Seq<Asked>, line: Asked)
    ensures
        sum(Seq::empty()) == 0,
        sum(lines.push(line)) == sum(lines) + line.price,
{
    assert(lines.push(line).drop_last() =~= lines);
}

proof fn lemma_insert_seller(
    cards: Seq<Seq<char>>,
    rs: Seq<Listing>,
    sellers: Seq<Seq<char>>,
    new: Seq<char>,
)
    requires
        forall|i: int, j: int|
            0 <= i < j < sellers.len() ==> !goes_before(
                cards,
                rs,
                #[trigger] sellers[j],
                #[trigger] sellers[i],
            ),
    ensures
        ({
            let all = insert_seller(cards, rs, sellers, new);
            &&& all.to_multiset() == sellers.to_multiset().insert(new)
            &&& all.len() == sellers.len() + 1
            &&& forall|i: int, j: int|
                0 <= i < j < all.len() ==> !goes_before(
                    cards,
                    rs,
                    #[trigger] all[j],
                    #[trigger] all[i],
                )
            &&& forall|i: int|
                0 <= i < all.len() ==> #[trigger] all[i] == new || sellers.contains(all[i])
        }),
    decreases sellers.len(),
{
    broadcast use vstd::seq_lib::group_to_multiset_ensures;

    let all = insert_seller(cards, rs, sellers, new);
    if sellers.len() == 0 || !goes_before(cards, rs, new, sellers.last()) {
        assert forall|i: int, j: int| 0 <= i < j < all.len() implies !goes_before(
            cards,
            rs,
            #[trigger] all[j],
            #[trigger] all[i],
        ) by {
            if j == sellers.len() && i < sellers.len() - 1 {
                lemma_not_goes_chain(cards, rs, sellers[i], sellers.last(), new);
            }
        }
        assert forall|i: int| 0 <= i < all.len() implies #[trigger] all[i] == new
            || sellers.contains(all[i]) by {
            if i < sellers.len() {
                assert(sellers[i] == all[i]);
            }
        }
    } else {
        let init = sellers.drop_last();
        let last = sellers.last();
        lemma_insert_seller(cards, rs, init, new);
        let rest = insert_seller(cards, rs, init, new);
        assert(sellers =~= init.push(last));
        assert(all.to_multiset() =~= sellers.to_multiset().insert(new));
        assert forall|i: int| 0 <= i < all.len() implies #[trigger] all[i] == new
            || sellers.contains(all[i]) by {
            if i < rest.len() {
                assert(all[i] == rest[i]);
                if rest[i] != new {
                    let k = choose|k: int| 0 <= k < init.len() && init[k] == rest[i];
                    assert(sellers[k] == all[i]);
                }
            } else {
                assert(sellers[sellers.len() - 1] == all[i]);
            }
        }
        assert forall|i: int, j: int| 0 <= i < j < all.len() implies !goes_before(
            cards,
            rs,
            #[trigger] all[j],
            #[trigger] all[i],
        ) by {
            if j < rest.len() {
                assert(all[j] == rest[j] && all[i] == rest[i]);
            } else {
                assert(all[i] == rest[i]);
                if rest[i] == new {
                    lemma_not_both(cards, rs, new, last);
                } else {
                    let k = choose|k: int| 0 <= k < init.len() && init[k] == rest[i];
                    assert(!goes_before(cards, rs, sellers[sellers.len() - 1], sellers[k]));
                }
            }
        }
    }
}

proof fn lemma_not_goes_chain(
    cards: Seq<Seq<char>>,
    rs: Seq<Listing>,
    a: Seq<char>,
    b: Seq<char>,
    c: Seq<char>,
)
    requires
        !goes_before(cards, rs, b, a),
        !goes_before(cards, rs, c, b),
    ensures
        !goes_before(cards, rs, c, a),
{
    if count(cards, rs, c) == count(cards, rs, a) {
        lemma_not_before_chain(a, b, c);
    }
}

proof fn lemma_not_both(cards: Seq<Seq<char>>, rs: Seq<Listing>, a: Seq<char>, b: Seq<char>)
    requires
        goes_before(cards, rs, a, b),
    ensures
        !goes_before(cards, rs, b, a),
{
    if text_before(a, b) && text_before(b, a) {
        crate::decklist::lemma_before_chain(a, b, a);
        crate::decklist::lemma_not_before_self(a);
    }
}

/// The sellers of a category that have a card are all ranked, once for each time
/// that they are given: more cards come first, and of as many the lower name.
pub proof fn law_ranked_sellers(
    cards: Seq<Seq<char>>,
    rs: Seq<Listing>,
    stores: Seq<Seq<char>>,
    category: Category,
)
    ensures
        ({
            let all = ranked(cards, rs, stores, category);
            &&& all.to_multiset() == stores.filter(
                |s: Seq<char>| category_of(s) == Some(category) && entries(cards, rs, s).len() > 0,
            ).to_multiset()
            &&& forall|i: int, j: int|
                0 <= i < j < all.len() ==> entries(cards, rs, #[trigger] all[i]).len() >= entries(
                    cards,
                    rs,
                    #[trigger] all[j],
                ).len() && (entries(cards, rs, all[i]).len() == entries(cards, rs, all[j]).len()
                    ==> !text_before(all[j], all[i]))
        }),
{
    lemma_ranked(cards, rs, stores, category);
    let all = ranked(cards, rs, stores, category);
    assert forall|i: int, j: int| 0 <= i < j < all.len() implies entries(
        cards,
        rs,
        #[trigger] all[i],
    ).len() >= entries(cards, rs, #[trigger] all[j]).len() && (entries(cards, rs, all[i]).len()
        == entries(cards, rs, all[j]).len() ==> !text_before(all[j], all[i])) by {
        assert(!goes_before(cards, rs, all[j], all[i]));
    }
}

proof fn lemma_ranked(
    cards: Seq<Seq<char>>,
    rs: Seq<Listing>,
    stores: Seq<Seq<char>>,
    category: Category,
)
    ensures
        ({
            let all = ranked(cards, rs, stores, category);
            &&& all.to_multiset() == stores.filter(
                |s: Seq<char>| category_of(s) == Some(category) && entries(cards, rs, s).len() > 0,
            ).to_multiset()
            &&& forall|i: int, j: int|
                0 <= i < j < all.len() ==> !goes_before(
                    cards,
                    rs,
                    #[trigger] all[j],
                    #[trigger] all[i],
                )
        }),
    decreases stores.len(),
{
    broadcast use vstd::seq_lib::group_to_multiset_ensures;

    reveal(Seq::filter);
    if stores.len() > 0 {
        let init = stores.drop_last();
        lemma_ranked(cards, rs, init, category);
        lemma_insert_seller(cards, rs, ranked(cards, rs, init, category), stores.last());
    }
}

/// What the sellers that are not shown have and ask together, seller by seller.
pub proof fn law_hidden_sellers(
    cards: Seq<Seq<char>>,
    rs: Seq<Listing>,
    sellers: Seq<Seq<char>>,
    seller: Seq<char>,
    shown: nat,
)
    ensures
        sellers.len() <= shown ==> cards_from(cards, rs, sellers, shown) == 0 && cost_from(
            cards,
            rs,
            sellers,
            shown,
        ) == 0,
        sellers.len() >= shown ==> {
            &&& cards_from(cards, rs, sellers.push(seller), shown) == cards_from(
                cards,
                rs,
                sellers,
                shown,
            ) + entries(cards, rs, seller).len()
            &&& cost_from(cards, rs, sellers.push(seller), shown) == cost_from(
                cards,
                rs,
                sellers,
                shown,
            ) + sum(entries(cards, rs, seller))
        },
{
    assert(sellers.push(seller).drop_last() =~= sellers);
}

/// Three sellers are shown, or all where there are fewer, and one of each category
/// that has any.
pub proof fn law_three_sellers_are_shown(cards: Seq<Seq<char>>, rs: Seq<Listing>)
    ensures
        ({
            let all = all_sellers(cards, rs);
            let shown = slots(cards, rs);
            let most = all.norwegian.len() + all.powerseller.len() + all.private.len();
            let n = shown.norwegian + shown.powerseller + shown.private;
            &&& most >= 3 ==> n == 3
            &&& most < 3 ==> n == most
            &&& all.norwegian.len() > 0 ==> shown.norwegian > 0
            &&& all.powerseller.len() > 0 ==> shown.powerseller > 0
            &&& all.private.len() > 0 ==> shown.private > 0
        }),
{
    law_slots(cards, rs);
}

/// A store's block lists the cards bought there, line by line.
pub proof fn law_bought_lines(assigned: Seq<CardLine>, line: CardLine, store: Seq<char>)
    ensures
        bought_from(Seq::empty(), store).len() == 0,
        line.1 is None ==> bought_from(assigned.push(line), store) == bought_from(assigned, store),
        line.1 matches Some(b) ==> {
            &&& b.0 != store ==> bought_from(assigned.push(line), store) == bought_from(
                assigned,
                store,
            )
            &&& b.0 == store ==> bought_from(assigned.push(line), store) == bought_from(
                assigned,
                store,
            ).push(Asked { card: line.0, price: b.1, url: b.2 })
        },
{
    assert(assigned.push(line).drop_last() =~= assigned);
}

/// A store's totals are those at its place among the stores.
pub proof fn law_store_totals(sol: WizardSolution, i: int)
    requires
        0 <= i < sol.store_names@.len(),
        sol.card_subtotals@.len() == sol.store_names@.len(),
        sol.shipping_costs@.len() == sol.store_names@.len(),
        forall|k: int|
            0 <= k < sol.store_names@.len() && k != i ==> (#[trigger] sol.store_names@[k])@
                != sol.store_names@[i]@,
    ensures
        store_totals(sol, sol.store_names@[i]@) == (
            sol.card_subtotals@[i] as nat,
            sol.shipping_costs@[i] as nat,
        ),
        grand_total(sol) == sol.total_card_cost + sol.total_shipping,
{
    lemma_totals_at(sol, i, sol.store_names@.len() as int);
}

proof fn lemma_totals_at(sol: WizardSolution, i: int, k: int)
    requires
        0 <= i < k <= sol.store_names@.len(),
        sol.card_subtotals@.len() == sol.store_names@.len(),
        sol.shipping_costs@.len() == sol.store_names@.len(),
        forall|l: int|
            0 <= l < sol.store_names@.len() && l != i ==> (#[trigger] sol.store_names@[l])@
                != sol.store_names@[i]@,
    ensures
        totals_at(sol, sol.store_names@[i]@, k) == Some(i),
    decreases k,
{
    if k - 1 > i {
        lemma_totals_at(sol, i, k - 1);
    }
}

} // verus!
