//! What CardMarket's offers become, and when the store is given up.

use crate::laws::text::law_split_once;
use crate::shipping::{blacklisted, capped, rounded};
use crate::stores::Listing;
use crate::stores::cardmarket::{
    before_query, blocked, card_address, challenged, endpoint, eur_amount, flags_of, last_segment,
    local_price, offer_address, offer_listings, prefix_for, rescued_sellers, rows_of_seller,
    seller_names, tells_challenge, tells_dead, CardMarket, Endpoints, Rescued, Seller,
};
use crate::text::{contains, lowercase, split_once};
use vstd::prelude::*;

verus! {

/// A price in kroner is eleven times the price in euros; a seller abroad comes with
/// 25% VAT on top, rounded.
pub proof fn law_prices_in_kroner(cents: nat)
    requires
        cents * 14 <= 0xffff_ffff,
    ensures
        local_price(cents, false) == 11 * cents,
        -100 <= 2 * (100 * local_price(cents, true) - 125 * 11 * cents) <= 100,
{
    let nok = (cents * 11) as int;
    assert(nok * 125 == 125 * 11 * cents) by (nonlinear_arith)
        requires
            nok == cents * 11,
    ;
    let with = (2 * (nok * 125) + 100) / 200;
    assert(200 * with <= 250 * nok + 100 < 200 * with + 200);
}

/// A price never falls when the price in euros rises.
pub proof fn law_dearer_stays_dearer(a: nat, b: nat, abroad: bool)
    requires
        a <= b,
    ensures
        local_price(a, abroad) <= local_price(b, abroad),
{
    let x = capped((a * 11) as int);
    let y = capped((b * 11) as int);
    assert(x <= y);
    assert((2 * (x * 125) + 100) / 200 <= (2 * (y * 125) + 100) / 200);
}

/// An offer is listed if it has items and its seller ships to Norway.
pub open spec fn taken(e: Seller) -> bool {
    e.count > 0 && !blacklisted(e.name)
}

/// The offers with items, of sellers that ship to Norway, are listed in order; no
/// other is.  Each stands under its seller, at its price, with its link.
pub proof fn law_offers_are_listed(
    offers: Seq<Seller>,
    card: Seq<char>,
    abroad: bool,
    private: bool,
)
    ensures
        ({
            let found = offer_listings(offers, card, abroad, private);
            let from = offers.filter(|e: Seller| taken(e));
            &&& found.len() == from.len()
            &&& forall|i: int|
                0 <= i < found.len() ==> (#[trigger] found[i]).card == card && found[i].price
                    == local_price(from[i].cents, abroad) && found[i].store == prefix_for(
                    abroad,
                    private,
                ) + ": "@ + from[i].name && found[i].url == offer_address(from[i].url, card)
        }),
    decreases offers.len(),
{
    reveal(Seq::filter);
    if offers.len() > 0 {
        law_offers_are_listed(offers.drop_last(), card, abroad, private);
    }
}

/// The three kinds of sellers by their prefixes and cache keys.
pub proof fn law_kinds_of_sellers(key: Seq<char>)
    ensures
        prefix_for(false, false) == "cardmarket.com"@,
        prefix_for(true, false) == "cardmarket-int.com"@,
        prefix_for(true, true) == "cardmarket-int-private.com"@,
        flags_of("cardmarket.com"@) == Some((false, false)),
        flags_of("cardmarket-int.com"@) == Some((true, false)),
        flags_of("cardmarket-int-private.com"@) == Some((true, true)),
        flags_of(key) matches Some(f) ==> prefix_for(f.0, f.1) == key,
{
    reveal_strlit("cardmarket.com");
    reveal_strlit("cardmarket-int.com");
    reveal_strlit("cardmarket-int-private.com");
    assert("cardmarket.com"@[10] != "cardmarket-int.com"@[10]);
    assert("cardmarket.com"@[10] != "cardmarket-int-private.com"@[10]);
    assert("cardmarket-int.com"@[14] != "cardmarket-int-private.com"@[14]);
}

/// The results of an endpoint come under its own key, and all together hold the
/// Norwegian, the professional and the private ones in a row.
pub proof fn law_results_by_key(e: Endpoints, key: Seq<char>)
    ensures
        e.under("cardmarket.com"@) == Some(e.norwegian),
        e.under("cardmarket-int.com"@) == Some(e.int_powerseller),
        e.under("cardmarket-int-private.com"@) == Some(e.int_private),
        e.under(key) is Some ==> key == "cardmarket.com"@ || key == "cardmarket-int.com"@ || key
            == "cardmarket-int-private.com"@,
        e.all() == e.norwegian + e.int_powerseller + e.int_private,
{
    law_kinds_of_sellers(key);
}

/// A seller's offers of a card are those of the profile's singles with the card's
/// encoded name.
pub proof fn law_offer_address(profile: Seq<char>, card: Seq<char>)
    ensures
        offer_address(profile, card) == profile + ("/Offers/Singles?name="@
            + crate::percent::url_encoded(card) + "&sortBy=name_asc"@),
{
    assert(offer_address(profile, card) =~= profile + ("/Offers/Singles?name="@
        + crate::percent::url_encoded(card) + "&sortBy=name_asc"@));
}

/// Copied sellers with a name and a readable price become offers, in order.
pub proof fn law_copied_sellers(a: Seq<Rescued>, r: Rescued)
    ensures
        rescued_sellers(Seq::empty()).len() == 0,
        r.n.len() > 0 && r.p.len() > 0 && eur_amount(r.p) is Some ==> rescued_sellers(a.push(r))
            == rescued_sellers(a).push(
            Seller { name: r.n, cents: eur_amount(r.p)->0, count: r.c, url: r.u },
        ),
        r.n.len() == 0 || eur_amount(r.p) is None ==> rescued_sellers(a.push(r))
            == rescued_sellers(a),
{
    assert(a.push(r).drop_last() =~= a);
}

/// The store is given up after three blocks, and never in semi-manual mode.
pub proof fn law_given_up_after_three_blocks(store: CardMarket)
    ensures
        blocked(store) <==> store.block_count >= 3 && !store.semi_manual,
{
}

/// A challenge is told by its marks in the page, or by a message that says so.
pub proof fn law_challenges(a: Seq<char>, b: Seq<char>, messages: Seq<Seq<char>>, i: int)
    ensures
        challenged(a + "_cf_chl_opt"@ + b),
        challenged(a + "challenges.cloudflare.com"@ + b),
        !contains(a, "_cf_chl_opt"@) && !contains(a, "challenges.cloudflare.com"@) ==> !challenged(
            a,
        ),
        0 <= i < messages.len() && messages[i] == a + "Cloudflare challenge"@ + b
            ==> tells_challenge(messages),
        (forall|k: int|
            0 <= k < messages.len() ==> !contains(#[trigger] messages[k], "Cloudflare challenge"@))
            ==> !tells_challenge(messages),
        lowercase(a) == b + "connection is closed"@ || lowercase(a) == b + "connection closed"@
            || lowercase(a) == b + "no such tab"@ || lowercase(a) == b + "browser has been closed"@
            ==> tells_dead(a),
{
    let none = Seq::<char>::empty();
    crate::laws::text::law_contains(a, "_cf_chl_opt"@, a, b);
    crate::laws::text::law_contains(a, "challenges.cloudflare.com"@, a, b);
    crate::laws::text::law_contains(a, "Cloudflare challenge"@, a, b);
    crate::laws::text::law_contains(a, "connection is closed"@, b, none);
    crate::laws::text::law_contains(a, "connection closed"@, b, none);
    crate::laws::text::law_contains(a, "no such tab"@, b, none);
    crate::laws::text::law_contains(a, "browser has been closed"@, b, none);
    assert(b + "connection is closed"@ + none =~= b + "connection is closed"@);
    assert(b + "connection closed"@ + none =~= b + "connection closed"@);
    assert(b + "no such tab"@ + none =~= b + "no such tab"@);
    assert(b + "browser has been closed"@ + none =~= b + "browser has been closed"@);
}

proof fn lemma_last_segment(a: Seq<char>, b: Seq<char>)
    requires
        !b.contains('/'),
    ensures
        last_segment(a.push('/') + b) == b,
    decreases b.len(),
{
    let s = a.push('/') + b;
    if b.len() == 0 {
        assert(s =~= a.push('/'));
        assert(b =~= Seq::empty());
    } else {
        let rest = b.drop_last();
        assert(!rest.contains('/')) by {
            if rest.contains('/') {
                let i = choose|i: int| 0 <= i < rest.len() && rest[i] == '/';
                assert(b[i] == '/');
            }
        }
        assert(b[b.len() - 1] != '/');
        lemma_last_segment(a, rest);
        assert(s.drop_last() =~= a.push('/') + rest);
        assert(rest.push(b.last()) =~= b);
    }
}

proof fn lemma_before_query(a: Seq<char>, b: Seq<char>)
    requires
        !a.contains('?'),
    ensures
        before_query(a.push('?') + b) == a,
{
    let s = a.push('?') + b;
    law_split_once(s, '?');
    assert(s[a.len() as int] == '?');
    if let Some((x, y)) = split_once(s, '?') {
        if x.len() < a.len() {
            assert(s[x.len() as int] == x.push('?')[x.len() as int]);
            assert(a[x.len() as int] == '?');
        } else if x.len() > a.len() {
            assert(x[a.len() as int] == s[a.len() as int]);
        }
        assert(x =~= a) by {
            assert forall|i: int| 0 <= i < a.len() implies x[i] == a[i] by {
                assert(s[i] == x.push('?')[i]);
            }
        }
    }
}

/// From the address of a blocked page, the card and the endpoint to fetch by hand
/// are those that the address was made for.
pub proof fn law_blocked_pages_are_told_apart(slug: Seq<char>)
    requires
        !slug.contains('/'),
        !slug.contains('?'),
    ensures
        ({
            let no = card_address(slug, "sellerCountry=24"@);
            let power = card_address(slug, "sellerType=1,2"@);
            let private = card_address(slug, "sellerType=0"@);
            &&& before_query(last_segment(no)) == slug
            &&& before_query(last_segment(power)) == slug
            &&& before_query(last_segment(private)) == slug
            &&& endpoint(private) == "cardmarket-int-private.com"@
            &&& !contains(power, "sellerType=0"@) ==> endpoint(power) == "cardmarket-int.com"@
            &&& !contains(no, "sellerType"@) && !contains(no, "sellerType=0"@) ==> endpoint(no)
                == "cardmarket.com"@
        }),
{
    reveal_strlit("sellerCountry=24");
    reveal_strlit("sellerType=1,2");
    reveal_strlit("sellerType=0");
    reveal_strlit("sellerType");
    reveal_strlit("&language=1");
    reveal_strlit("/");
    reveal_strlit("?");
    lemma_card_address(slug, "sellerCountry=24"@);
    lemma_card_address(slug, "sellerType=1,2"@);
    lemma_card_address(slug, "sellerType=0"@);
    let base = "https://www.cardmarket.com/en/Magic/Cards"@;
    let front = base + "/"@ + slug + "?"@;
    let power = card_address(slug, "sellerType=1,2"@);
    let private = card_address(slug, "sellerType=0"@);
    crate::laws::text::law_contains(private, "sellerType=0"@, front, "&language=1"@);
    let tail = "=1,2"@ + "&language=1"@;
    reveal_strlit("=1,2");
    assert("sellerType"@ + "=1,2"@ =~= "sellerType=1,2"@);
    assert(power =~= front + "sellerType"@ + tail);
    crate::laws::text::law_contains(power, "sellerType"@, front, tail);
}

proof fn lemma_card_address(slug: Seq<char>, filter: Seq<char>)
    requires
        !slug.contains('/'),
        !slug.contains('?'),
        !filter.contains('/'),
    ensures
        before_query(last_segment(card_address(slug, filter))) == slug,
{
    reveal_strlit("/");
    reveal_strlit("?");
    reveal_strlit("&language=1");
    let base = "https://www.cardmarket.com/en/Magic/Cards"@;
    let tail = filter + "&language=1"@;
    let b = slug.push('?') + tail;
    let s = card_address(slug, filter);
    assert(s =~= base.push('/') + b);
    assert(!b.contains('/')) by {
        if b.contains('/') {
            let i = choose|i: int| 0 <= i < b.len() && b[i] == '/';
            if i < slug.len() {
                assert(slug[i] == '/');
            } else if i > slug.len() && i - slug.len() - 1 < filter.len() {
                assert(filter[i - slug.len() - 1] == '/');
            }
        }
    }
    lemma_last_segment(base, b);
    lemma_before_query(slug, tail);
}

/// Grouping by seller keeps every result once, under its seller and in order.
pub proof fn law_groups_by_seller(rows: Seq<Listing>, store: Seq<char>)
    ensures
        rows_of_seller(rows, store) == rows.filter(|r: Listing| r.store == store),
        seller_names(rows).no_duplicates(),
        seller_names(rows).contains(store) <==> exists|i: int|
            0 <= i < rows.len() && (#[trigger] rows[i]).store == store,
    decreases rows.len(),
{
    reveal(Seq::filter);
    if rows.len() > 0 {
        let init = rows.drop_last();
        law_groups_by_seller(init, store);
        let rest = seller_names(init);
        let all = seller_names(rows);
        let last = rows.last();
        assert(rows[rows.len() - 1] == last);
        if exists|i: int| 0 <= i < rows.len() && (#[trigger] rows[i]).store == store {
            let i = choose|i: int| 0 <= i < rows.len() && (#[trigger] rows[i]).store == store;
            if i < init.len() {
                assert(init[i].store == store);
                let k = choose|k: int| 0 <= k < rest.len() && rest[k] == store;
                assert(all[k] == store);
            } else if rest.contains(store) {
                let k = choose|k: int| 0 <= k < rest.len() && rest[k] == store;
                assert(all[k] == store);
            } else {
                assert(all[rest.len() as int] == store);
            }
        }
        if all.contains(store) {
            let k = choose|k: int| 0 <= k < all.len() && all[k] == store;
            if k < rest.len() {
                assert(rest[k] == store);
                let i = choose|i: int| 0 <= i < init.len() && (#[trigger] init[i]).store == store;
                assert(rows[i].store == store);
            } else {
                assert(rows[rows.len() - 1].store == store);
            }
        }
    }
}

} // verus!
