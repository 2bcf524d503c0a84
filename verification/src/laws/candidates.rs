//! Which stores an exhaustive search considers, and what it returns.

use crate::laws::shipping::{lemma_longer_prefix, lemma_no_prefix, lemma_prefix};
use crate::order::{law_stable_sorted, stable_sorted};
use crate::sums::total;
use crate::text::starts_with;
use crate::wizard::candidates::{
    barred, base_pool, by_coverage, candidate_stores, class_of, competes, covered, dominates,
    first_public, pool_best, public_stores, ranked_sellers, saturate, stores_of, useful,
    with_cheapest, with_missing, without_barred, StoreClass,
};
use crate::wizard::combos::{law_subsets_count, subsets};
use crate::wizard::exhaustive::{
    best_pos, by_score, combo_count, distinct_choices, estimate, exhaustive_result, greedy_choices,
    known_stores, lemma_best_pos, lowest_base, lowest_prices, most_stores, offer, subset_score,
};
use crate::wizard::model::{Strategy, WizardConfig, WizardInput};
use vstd::prelude::*;

verus! {

/// The class of a store goes by its name.
pub proof fn law_store_classes(name: Seq<char>, store: Seq<char>)
    ensures
        class_of("cardmarket.com:"@ + name) == StoreClass::Norwegian,
        class_of("cardmarket-int.com:"@ + name) == StoreClass::Professional,
        class_of("cardmarket-int-private.com:"@ + name) == StoreClass::Private,
        !starts_with(store, "cardmarket"@) ==> class_of(store) == StoreClass::Storefront,
        starts_with(store, "cardmarket"@) ==> class_of(store) != StoreClass::Storefront,
{
    reveal_strlit("cardmarket");
    reveal_strlit("cardmarket.com:");
    reveal_strlit("cardmarket-int.com:");
    reveal_strlit("cardmarket-int-private.com:");
    let a = "cardmarket.com:"@ + name;
    let b = "cardmarket-int.com:"@ + name;
    lemma_prefix("cardmarket.com:"@, name);
    lemma_prefix("cardmarket-int.com:"@, name);
    lemma_prefix("cardmarket-int-private.com:"@, name);
    lemma_no_prefix(a, "cardmarket-int-private.com:"@, 10);
    lemma_no_prefix(b, "cardmarket-int-private.com:"@, 14);
    lemma_no_prefix(b, "cardmarket.com:"@, 10);
    if !starts_with(store, "cardmarket"@) {
        lemma_longer_prefix(store, "cardmarket"@, "cardmarket.com:"@);
        lemma_longer_prefix(store, "cardmarket"@, "cardmarket-int.com:"@);
        lemma_longer_prefix(store, "cardmarket"@, "cardmarket-int-private.com:"@);
    }
}

/// The indices below `k`.
pub open spec fn below(k: nat) -> Seq<usize> {
    Seq::new(k, |i: int| i as usize)
}

proof fn lemma_public_below(input: &WizardInput, k: int)
    requires
        0 <= k <= input.stores() <= usize::MAX,
    ensures
        public_stores(input, k) == below(k as nat).filter(
            |si: usize|
                !starts_with(input.store_names@[si as int]@, "cardmarket-int-private.com:"@),
        ),
    decreases k,
{
    reveal(Seq::filter);
    if k > 0 {
        lemma_public_below(input, k - 1);
        assert(below(k as nat).drop_last() =~= below((k - 1) as nat));
    }
}

/// Of up to forty stores, all but the private sellers are candidates.
pub proof fn law_small_inputs_keep_all_stores(input: &WizardInput)
    requires
        input.wf(),
        input.store_names@.len() <= 40,
    ensures
        candidate_stores(input) == below(input.store_names@.len()).filter(
            |si: usize|
                !starts_with(input.store_names@[si as int]@, "cardmarket-int-private.com:"@),
        ),
{
    lemma_public_below(input, input.stores() as int);
}

proof fn lemma_stores_of(input: &WizardInput, class: StoreClass, k: int)
    requires
        0 <= k <= input.stores() <= usize::MAX,
    ensures
        stores_of(input, class, k) == below(k as nat).filter(
            |si: usize| class_of(input.store_names@[si as int]@) == class,
        ),
    decreases k,
{
    reveal(Seq::filter);
    if k > 0 {
        lemma_stores_of(input, class, k - 1);
        assert(below(k as nat).drop_last() =~= below((k - 1) as nat));
    }
}

/// The sellers of a class are all ranked, those with more cards first.
pub proof fn law_sellers_by_coverage(input: &WizardInput, class: StoreClass)
    requires
        input.wf(),
    ensures
        ({
            let all = ranked_sellers(input, class);
            &&& all.to_multiset() == below(input.store_names@.len()).filter(
                |si: usize| class_of(input.store_names@[si as int]@) == class,
            ).to_multiset()
            &&& forall|i: int, j: int|
                0 <= i < j < all.len() ==> input.store_cards@[(#[trigger] all[i]) as int]@.len()
                    >= input.store_cards@[(#[trigger] all[j]) as int]@.len()
        }),
{
    let listed = stores_of(input, class, input.stores() as int);
    lemma_stores_of(input, class, input.stores() as int);
    law_stable_sorted(listed, by_coverage(input));
    let all = ranked_sellers(input, class);
    assert forall|i: int, j: int| 0 <= i < j < all.len() implies input.store_cards@[(
    #[trigger] all[i]) as int]@.len() >= input.store_cards@[(#[trigger] all[j]) as int]@.len() by {
        let key = by_coverage(input);
        assert(key(all[i]) <= key(all[j]));
    }
}

/// The pool starts with all storefronts and the eighty Norwegian sellers with the
/// most cards, or all of them where there are fewer.
pub proof fn law_first_pool(input: &WizardInput)
    requires
        input.wf(),
    ensures
        ({
            let fronts = below(input.store_names@.len()).filter(
                |si: usize| class_of(input.store_names@[si as int]@) == StoreClass::Storefront,
            );
            let no = ranked_sellers(input, StoreClass::Norwegian);
            let pool = base_pool(input);
            &&& pool.len() == fronts.len() + if no.len() <= 80 {
                no.len()
            } else {
                80
            }
            &&& pool.take(fronts.len() as int) == fronts
            &&& forall|i: int|
                fronts.len() <= i < pool.len() ==> #[trigger] pool[i] == no[i - fronts.len()]
        }),
{
    lemma_stores_of(input, StoreClass::Storefront, input.stores() as int);
    let fronts = stores_of(input, StoreClass::Storefront, input.stores() as int);
    assert(base_pool(input).take(fronts.len() as int) =~= fronts);
}

/// The best price in a pool is that of one of its stores, and none asks less.
pub proof fn law_best_price_in_pool(input: &WizardInput, pool: Seq<usize>, ci: int)
    ensures
        forall|p: int|
            0 <= p < pool.len() ==> pool_best(input, pool, ci) <= input.cheapest_price(
                ci,
                (#[trigger] pool[p]) as int,
            ),
        pool_best(input, pool, ci) == u32::MAX || exists|p: int|
            0 <= p < pool.len() && pool_best(input, pool, ci) == input.cheapest_price(
                ci,
                (#[trigger] pool[p]) as int,
            ),
    decreases pool.len(),
{
    if pool.len() > 0 {
        let init = pool.drop_last();
        law_best_price_in_pool(input, init, ci);
        assert forall|p: int| 0 <= p < pool.len() implies pool_best(input, pool, ci)
            <= input.cheapest_price(ci, (#[trigger] pool[p]) as int) by {
            if p < init.len() {
                assert(pool[p] == init[p]);
            }
        }
        if pool_best(input, pool, ci) == input.cheapest_price(ci, pool.last() as int) {
            assert(pool[pool.len() - 1] == pool.last());
        } else if pool_best(input, init, ci) != u32::MAX {
            let p = choose|p: int|
                0 <= p < init.len() && pool_best(input, init, ci) == input.cheapest_price(
                    ci,
                    (#[trigger] init[p]) as int,
                );
            assert(pool[p] == init[p]);
        }
    }
}

/// A seller joins the pool with at least eight cards, one of which the pool lacks
/// or has for no less than four fifths of the seller's price.
pub proof fn law_useful_sellers(input: &WizardInput, pool: Seq<usize>, si: usize, ci: int)
    requires
        0 <= ci < input.n_cards(),
    ensures
        input.store_cards@[si as int]@.len() < 8 ==> !useful(input, pool, si),
        competes(input, pool, si, ci) <==> input.cheapest_price(ci, si as int) < u32::MAX && (
        pool_best(input, pool, ci) == u32::MAX || 4 * input.cheapest_price(ci, si as int) <= 5
            * pool_best(input, pool, ci)),
        competes(input, pool, si, ci) && input.store_cards@[si as int]@.len() >= 8 ==> useful(
            input,
            pool,
            si,
        ),
{
}

/// Sellers are looked at in order until forty in a row are of no use.
pub proof fn law_saturation(
    input: &WizardInput,
    sellers: Seq<usize>,
    at: int,
    pool: Seq<usize>,
    fails: int,
)
    requires
        0 <= at < sellers.len(),
        0 <= fails,
    ensures
        fails >= 40 ==> saturate(input, sellers, at, pool, fails) == pool,
        fails < 40 && useful(input, pool, sellers[at]) ==> saturate(input, sellers, at, pool, fails)
            == saturate(input, sellers, at + 1, pool.push(sellers[at]), 0),
        fails < 40 && !useful(input, pool, sellers[at]) ==> saturate(
            input,
            sellers,
            at,
            pool,
            fails,
        ) == saturate(input, sellers, at + 1, pool, fails + 1),
{
}

/// A store that dominates another ships for no more, and offers each of the other's
/// cards for no more.
pub proof fn law_dominating_stores(input: &WizardInput, b: usize, a: usize, ci: int)
    requires
        dominates(input, b, a),
        0 <= ci < input.n_cards(),
    ensures
        input.shipping_bases@[b as int] <= input.shipping_bases@[a as int],
        input.cheapest_price(ci, b as int) <= input.cheapest_price(ci, a as int),
{
    if input.cheapest(ci, a as int) is Some {
        assert(input.cheapest_price(ci, b as int) <= input.cheapest_price(ci, a as int));
    }
}

/// A set of stores sells every card that one of them carries, at the lowest price
/// that any of them asks.
pub proof fn law_sets_sell_at_the_lowest_price(
    input: &WizardInput,
    subset: Seq<usize>,
    ci: int,
    oi: int,
)
    requires
        input.wf(),
        known_stores(input, subset),
        0 <= ci < input.cards@.len(),
        0 <= oi < input.cards@[ci].options@.len(),
        subset.contains(input.cards@[ci].options@[oi].store_idx),
        input.cards@[ci].options@[oi].price < u32::MAX,
    ensures
        greedy_choices(input, subset)[ci] matches Some(k) && k < input.cards@[ci].options@.len()
            && subset.contains(input.cards@[ci].options@[k as int].store_idx)
            && input.cards@[ci].options@[k as int].price <= input.cards@[ci].options@[oi].price,
{
    let opts = input.options(ci);
    let at = opts[oi].store_idx;
    let p = choose|p: int| 0 <= p < subset.len() && subset[p] == at;
    crate::laws::input::law_matrix_holds_lowest_prices(input, ci, at as int);
    lemma_best_pos(input, ci, subset);
    let q = best_pos(input, ci, subset)->0;
    crate::laws::input::law_matrix_holds_lowest_prices(input, ci, subset[q] as int);
}

/// Of stores that ask the same lowest price, the first of the set sells the card.
pub proof fn law_first_store_sells(input: &WizardInput, subset: Seq<usize>, ci: int, p: int)
    requires
        input.wf(),
        known_stores(input, subset),
        0 <= ci < input.cards@.len(),
        0 <= p < subset.len(),
        input.cheapest_price(ci, subset[p] as int) < u32::MAX,
        forall|q: int|
            0 <= q < subset.len() ==> input.cheapest_price(ci, subset[p] as int)
                <= input.cheapest_price(ci, (#[trigger] subset[q]) as int),
        forall|q: int|
            0 <= q < p ==> input.cheapest_price(ci, subset[p] as int) < input.cheapest_price(
                ci,
                (#[trigger] subset[q]) as int,
            ),
    ensures
        greedy_choices(input, subset)[ci] == input.cheapest(ci, subset[p] as int),
{
    lemma_best_pos(input, ci, subset);
}

/// A card that no store of the set carries is skipped.
pub proof fn law_sets_skip_what_they_lack(input: &WizardInput, subset: Seq<usize>, ci: int)
    requires
        input.wf(),
        known_stores(input, subset),
        0 <= ci < input.cards@.len(),
        forall|oi: int|
            0 <= oi < input.cards@[ci].options@.len() ==> !subset.contains(
                (#[trigger] input.cards@[ci].options@[oi]).store_idx,
            ),
    ensures
        greedy_choices(input, subset)[ci] is None,
{
    lemma_best_pos(input, ci, subset);
    if let Some(q) = best_pos(input, ci, subset) {
        crate::laws::input::law_matrix_holds_lowest_prices(input, ci, subset[q] as int);
        if let Some(oi) = input.cheapest(ci, subset[q] as int) {
            let opt = input.cards@[ci].options@[oi as int];
            assert(subset[q] == opt.store_idx);
            assert(subset.contains(opt.store_idx));
        }
    }
}

/// The estimate for sets of a size does not depend on the tolerance; each further
/// store adds 500 kr under `Simplest`, and 50 kr under `Cheapest` from the second on.
pub proof fn law_estimate(
    input: &WizardInput,
    config: &WizardConfig,
    other: &WizardConfig,
    cands: Seq<usize>,
    k: int,
)
    requires
        1 <= k,
        config.strategy == other.strategy,
    ensures
        estimate(input, config, cands, k) == estimate(input, other, cands, k),
        config.strategy == Strategy::Simplest ==> estimate(input, config, cands, k + 1) == estimate(
            input,
            config,
            cands,
            k,
        ) + 50000,
        config.strategy == Strategy::Cheapest ==> estimate(input, config, cands, k + 1) == estimate(
            input,
            config,
            cands,
            k,
        ) + 5000,
        config.strategy == Strategy::Cheapest ==> estimate(input, config, cands, 1) == total(
            lowest_prices(input, cands),
        ) + lowest_base(input, cands),
{
    let a = k + 1;
    assert(a * 50000 == k * 50000 + 50000) by (nonlinear_arith)
        requires
            a == k + 1,
    ;
    let b = k - 1;
    assert(k * 5000 == b * 5000 + 5000) by (nonlinear_arith)
        requires
            b == k - 1,
    ;
}

/// The lowest base shipping is that of a candidate, and none ships for less.
pub proof fn law_lowest_base(input: &WizardInput, cands: Seq<usize>)
    ensures
        forall|p: int|
            0 <= p < cands.len() ==> lowest_base(input, cands) <= input.shipping_bases@[(
            #[trigger] cands[p]) as int],
        cands.len() > 0 ==> exists|p: int|
            0 <= p < cands.len() && lowest_base(input, cands) == input.shipping_bases@[(
            #[trigger] cands[p]) as int],
    decreases cands.len(),
{
    if cands.len() > 0 {
        let init = cands.drop_last();
        law_lowest_base(input, init);
        assert forall|p: int| 0 <= p < cands.len() implies lowest_base(input, cands)
            <= input.shipping_bases@[(#[trigger] cands[p]) as int] by {
            if p < init.len() {
                assert(cands[p] == init[p]);
            }
        }
        if lowest_base(input, cands) == input.shipping_bases@[cands.last() as int] {
            assert(cands[cands.len() - 1] == cands.last());
        } else {
            let p = choose|p: int|
                0 <= p < init.len() && lowest_base(input, init) == input.shipping_bases@[(
                #[trigger] init[p]) as int];
            assert(cands[p] == init[p]);
        }
    }
}

/// With fewer than three solutions at hand, every set is tried, whatever its
/// estimate; with three, one whose estimate is not below the worst is not.
pub proof fn law_sets_passed_over(
    input: &WizardInput,
    config: &WizardConfig,
    cands: Seq<usize>,
    top: Seq<Seq<usize>>,
    s: Seq<usize>,
)
    ensures
        top.len() < 3 ==> offer(input, config, cands, top, s).len() == top.len() + 1,
        top.len() == 3 ==> offer(input, config, cands, top, s).len() == 3,
        top.len() == 3 && estimate(input, config, cands, s.len() as int) >= subset_score(
            input,
            config,
            top.last(),
        ) ==> offer(input, config, cands, top, s) == top,
{
    lemma_insert_top_len(input, config, top, s);
}

proof fn lemma_insert_top_len(
    input: &WizardInput,
    config: &WizardConfig,
    top: Seq<Seq<usize>>,
    s: Seq<usize>,
)
    ensures
        crate::wizard::exhaustive::insert_top(input, config, top, s).len() == top.len() + 1,
    decreases top.len(),
{
    if top.len() > 0 {
        lemma_insert_top_len(input, config, top.drop_last(), s);
    }
}

proof fn lemma_distinct(input: &WizardInput, config: &WizardConfig, s: Seq<Seq<usize>>)
    requires
        forall|i: int, j: int|
            0 <= i < j < s.len() ==> subset_score(input, config, #[trigger] s[i]) <= subset_score(
                input,
                config,
                #[trigger] s[j],
            ),
    ensures
        ({
            let all = distinct_choices(input, s);
            &&& forall|i: int, j: int|
                0 <= i < j < all.len() ==> greedy_choices(input, #[trigger] all[i])
                    != greedy_choices(input, #[trigger] all[j]) && subset_score(
                    input,
                    config,
                    all[i],
                ) <= subset_score(input, config, all[j])
            &&& forall|i: int| 0 <= i < all.len() ==> s.contains(#[trigger] all[i])
        }),
    decreases s.len(),
{
    if s.len() > 0 {
        let init = s.drop_last();
        lemma_distinct(input, config, init);
        let rest = distinct_choices(input, init);
        let all = distinct_choices(input, s);
        assert forall|i: int| 0 <= i < all.len() implies s.contains(#[trigger] all[i]) by {
            if i < rest.len() {
                assert(init.contains(rest[i]));
                let k = choose|k: int| 0 <= k < init.len() && init[k] == rest[i];
                assert(s[k] == all[i]);
            } else {
                assert(s[s.len() - 1] == all[i]);
            }
        }
        assert forall|i: int, j: int| 0 <= i < j < all.len() implies greedy_choices(
            input,
            #[trigger] all[i],
        ) != greedy_choices(input, #[trigger] all[j]) && subset_score(input, config, all[i])
            <= subset_score(input, config, all[j]) by {
            if j == rest.len() {
                assert(all[i] == rest[i]);
                assert(init.contains(rest[i]));
                let k = choose|k: int| 0 <= k < init.len() && init[k] == rest[i];
                assert(s[k] == all[i] && s[s.len() - 1] == all[j]);
            } else {
                assert(all[i] == rest[i] && all[j] == rest[j]);
            }
        }
    }
}

/// An exhaustive search returns at most three solutions, the better ones first, and
/// no two that buy the same.
pub proof fn law_three_distinct_solutions(
    input: &WizardInput,
    config: &WizardConfig,
    cands: Seq<usize>,
)
    ensures
        ({
            let all = exhaustive_result(input, config, cands);
            &&& all.len() <= 3
            &&& forall|i: int, j: int|
                0 <= i < j < all.len() ==> greedy_choices(input, #[trigger] all[i])
                    != greedy_choices(input, #[trigger] all[j]) && subset_score(
                    input,
                    config,
                    all[i],
                ) <= subset_score(input, config, all[j])
        }),
{
    let found = crate::wizard::exhaustive::best_large(input, config, cands, 4)
        + crate::wizard::exhaustive::best_large(input, config, cands, 5)
        + crate::wizard::exhaustive::best_small(input, config, cands);
    let key = by_score(input, config);
    law_stable_sorted(found, key);
    let sorted = stable_sorted(found, key);
    assert forall|i: int, j: int| 0 <= i < j < sorted.len() implies subset_score(
        input,
        config,
        #[trigger] sorted[i],
    ) <= subset_score(input, config, #[trigger] sorted[j]) by {
        assert(key(sorted[i]) <= key(sorted[j]));
    }
    lemma_distinct(input, config, sorted);
}

/// The store of each card's cheapest listing joins the pool, unless it is a private
/// seller's.
pub proof fn law_cheapest_stores_join(input: &WizardInput, pool: Seq<usize>, k: int, ci: int)
    requires
        0 <= ci < k <= input.cards@.len(),
        input.cards@[ci].options@.len() > 0,
    ensures
        ({
            let at = input.cards@[ci].options@[0].store_idx;
            class_of(input.store_names@[at as int]@) != StoreClass::Private ==> with_cheapest(
                input,
                pool,
                k,
            ).contains(at)
        }),
        forall|p: int| 0 <= p < pool.len() ==> with_cheapest(input, pool, k).contains(
            #[trigger] pool[p],
        ),
    decreases k,
{
    let at = input.cards@[ci].options@[0].store_idx;
    let rest = with_cheapest(input, pool, k - 1);
    let all = with_cheapest(input, pool, k);
    lemma_joined_pool(input, pool, k);
    if ci < k - 1 {
        law_cheapest_stores_join(input, pool, k - 1, ci);
        if rest.contains(at) {
            let p = choose|p: int| 0 <= p < rest.len() && rest[p] == at;
            assert(all[p] == at);
        }
    } else if !rest.contains(at) && class_of(input.store_names@[at as int]@)
        != StoreClass::Private {
        assert(all[rest.len() as int] == at);
    }
}

proof fn lemma_joined_pool(input: &WizardInput, pool: Seq<usize>, k: int)
    ensures
        forall|p: int| 0 <= p < pool.len() ==> with_cheapest(input, pool, k).contains(
            #[trigger] pool[p],
        ),
    decreases k,
{
    if k > 0 {
        lemma_joined_pool(input, pool, k - 1);
        let rest = with_cheapest(input, pool, k - 1);
        let all = with_cheapest(input, pool, k);
        assert forall|p: int| 0 <= p < pool.len() implies all.contains(#[trigger] pool[p]) by {
            assert(rest.contains(pool[p]));
            let i = choose|i: int| 0 <= i < rest.len() && rest[i] == pool[p];
            assert(all[i] == pool[p]);
        }
    } else {
        assert forall|p: int| 0 <= p < pool.len() implies pool.contains(#[trigger] pool[p]) by {}
    }
}

/// A card that the pool lacks brings in the store of its cheapest listing that is
/// not a private seller's; any other card brings in none.
pub proof fn law_missing_cards_bring_stores(input: &WizardInput, pool: Seq<usize>, k: int)
    requires
        0 < k <= input.cards@.len(),
    ensures
        ({
            let rest = with_missing(input, pool, k - 1);
            let all = with_missing(input, pool, k);
            &&& covered(input, rest, k - 1) ==> all == rest
            &&& first_public(input, k - 1, 0) is None ==> all == rest
            &&& !covered(input, rest, k - 1) ==> (first_public(input, k - 1, 0) matches Some(si)
                ==> all.contains(si))
        }),
{
    let rest = with_missing(input, pool, k - 1);
    let all = with_missing(input, pool, k);
    if let Some(si) = first_public(input, k - 1, 0) {
        if !covered(input, rest, k - 1) && !rest.contains(si) {
            assert(all[rest.len() as int] == si);
        }
    }
}

/// The cheapest public store of a card is that of the first listing that is not a
/// private seller's.
pub proof fn law_first_public_store(input: &WizardInput, ci: int, at: int, k: int)
    requires
        0 <= at <= k < input.cards@[ci].options@.len(),
        class_of(input.store_names@[input.cards@[ci].options@[k].store_idx as int]@)
            != StoreClass::Private,
        forall|i: int|
            at <= i < k ==> class_of(
                input.store_names@[(#[trigger] input.cards@[ci].options@[i]).store_idx as int]@,
            ) == StoreClass::Private,
    ensures
        first_public(input, ci, at) == Some(input.cards@[ci].options@[k].store_idx),
    decreases k - at,
{
    if at < k {
        assert(class_of(input.store_names@[input.cards@[ci].options@[at].store_idx as int]@)
            == StoreClass::Private);
        law_first_public_store(input, ci, at + 1, k);
    }
}

/// Blacklisted sellers are struck off the pool, and no others.
pub proof fn law_barred_sellers_leave(input: &WizardInput, pool: Seq<usize>)
    ensures
        without_barred(input, pool) == pool.filter(
            |si: usize|
                !crate::shipping::blacklisted(
                    crate::shipping::seller_of(input.store_names@[si as int]@),
                ),
        ),
    decreases pool.len(),
{
    reveal(Seq::filter);
    if pool.len() > 0 {
        law_barred_sellers_leave(input, pool.drop_last());
        assert(barred(input, pool.last()) == crate::shipping::blacklisted(
            crate::shipping::seller_of(input.store_names@[pool.last() as int]@),
        ));
    }
}

/// The lowest price of a card is that of a candidate, and none asks less; a card
/// that none carries counts for nothing.
pub proof fn law_lowest_prices(input: &WizardInput, cands: Seq<usize>, ci: int, p: int)
    requires
        0 <= ci < input.cards@.len(),
        0 <= p < cands.len(),
    ensures
        lowest_prices(input, cands).len() == input.cards@.len(),
        input.cheapest_price(ci, cands[p] as int) < u32::MAX ==> lowest_prices(input, cands)[ci]
            <= input.cheapest_price(ci, cands[p] as int) && exists|q: int|
            0 <= q < cands.len() && lowest_prices(input, cands)[ci] == input.cheapest_price(
                ci,
                (#[trigger] cands[q]) as int,
            ),
        (forall|q: int|
            0 <= q < cands.len() ==> input.cheapest_price(ci, (#[trigger] cands[q]) as int)
                == u32::MAX) ==> lowest_prices(input, cands)[ci] == 0,
{
    lemma_best_pos(input, ci, cands);
}

/// An exhaustive search tries every set of one to five candidates.
pub proof fn law_sets_tried(cands: Seq<usize>, k: nat)
    ensures
        combo_count(cands.len(), 0) == 0,
        combo_count(cands.len(), k + 1) == combo_count(cands.len(), k) + subsets(
            cands,
            Seq::empty(),
            k + 1,
            0,
        ).len(),
        most_stores(cands.len()) <= 5,
        cands.len() >= 5 ==> most_stores(cands.len()) == 5,
        cands.len() < 5 ==> most_stores(cands.len()) == cands.len(),
{
    law_subsets_count(cands, Seq::empty(), k + 1, 0);
}

} // verus!
