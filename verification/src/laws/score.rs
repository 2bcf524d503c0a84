//! What the wizard's score counts.

use crate::sums::lemma_total_zero;
use crate::wizard::model::{Strategy, WizardConfig, WizardInput};
use crate::wizard::score::{
    bought_at, card_cost, fees, is_at, lemma_bounds, lemma_move, lemma_move_stores, paid, paid_at,
    raw_score, score, shipping_cost_of, shipping_fee, skip_flags, skipped, store_count, store_total,
    stores_used, used_flags, valid_choices,
};
use vstd::prelude::*;

verus! {

/// Under both strategies and at every tolerance, a skip beyond the tolerance costs
/// 5000 kr and a skip within it nothing.
pub proof fn law_skips_beyond_the_tolerance_cost(
    cost: int,
    stores: int,
    skips: int,
    tolerance: int,
    strategy: Strategy,
)
    requires
        0 <= skips,
        0 <= tolerance,
    ensures
        skips >= tolerance ==> raw_score(cost, stores, skips + 1, tolerance, strategy) == raw_score(
            cost,
            stores,
            skips,
            tolerance,
            strategy,
        ) + 500000,
        skips < tolerance ==> raw_score(cost, stores, skips + 1, tolerance, strategy) == raw_score(
            cost,
            stores,
            skips,
            tolerance,
            strategy,
        ),
{
    let a = skips + 1 - tolerance;
    let b = skips - tolerance;
    assert(a * 500000 == b * 500000 + 500000) by (nonlinear_arith)
        requires
            a == b + 1,
    ;
}

/// Money counts as it is, at any number of stores and skips.
pub proof fn law_money_counts(
    cost: int,
    more: int,
    stores: int,
    skips: int,
    tolerance: int,
    strategy: Strategy,
)
    ensures
        raw_score(cost + more, stores, skips, tolerance, strategy) == raw_score(
            cost,
            stores,
            skips,
            tolerance,
            strategy,
        ) + more,
        skips <= tolerance ==> raw_score(0, 0, skips, tolerance, strategy) == 0,
{
}

/// Every store weighs 500 kr under `Simplest`; under `Cheapest` the first weighs
/// nothing and every further one 50 kr.
pub proof fn law_stores_weigh(cost: int, stores: int, skips: int, tolerance: int)
    requires
        0 <= stores,
    ensures
        raw_score(cost, stores + 1, skips, tolerance, Strategy::Simplest) == raw_score(
            cost,
            stores,
            skips,
            tolerance,
            Strategy::Simplest,
        ) + 50000,
        stores >= 1 ==> raw_score(cost, stores + 1, skips, tolerance, Strategy::Cheapest)
            == raw_score(cost, stores, skips, tolerance, Strategy::Cheapest) + 5000,
        raw_score(cost, 1, skips, tolerance, Strategy::Cheapest) == raw_score(
            cost,
            0,
            skips,
            tolerance,
            Strategy::Cheapest,
        ),
{
    let a = stores + 1;
    assert(a * 50000 == stores * 50000 + 50000) by (nonlinear_arith)
        requires
            a == stores + 1,
    ;
    let b = stores - 1;
    assert(stores * 5000 == b * 5000 + 5000) by (nonlinear_arith)
        requires
            b == stores - 1,
    ;
}

/// The skipped cards are those without a choice.
pub proof fn law_skipped_counts(ch: Seq<Option<usize>>)
    ensures
        skipped(ch) == ch.filter(|c: Option<usize>| c is None).len(),
    decreases ch.len(),
{
    reveal(Seq::filter);
    if ch.len() > 0 {
        law_skipped_counts(ch.drop_last());
        assert(skip_flags(ch).drop_last() =~= skip_flags(ch.drop_last()));
    }
}

/// At any tolerance and under both strategies, an assignment costs at least 5000 kr
/// for every card that it skips beyond the tolerance.
pub proof fn law_excess_skips_cost(
    input: &WizardInput,
    config: &WizardConfig,
    ch: Seq<Option<usize>>,
)
    requires
        input.wf(),
        valid_choices(input, ch),
    ensures
        score(input, config, ch) >= (ch.filter(|c: Option<usize>| c is None).len()
            - config.tolerance) * 500000,
        score(input, config, ch) >= 0,
{
    law_skipped_counts(ch);
    lemma_bounds(input, ch);
    let stores = stores_used(input, ch);
    assert(stores * 50000 >= 0) by (nonlinear_arith)
        requires
            stores >= 0,
    ;
    let extra = stores - 1;
    assert(extra >= 0 ==> extra * 5000 >= 0) by (nonlinear_arith);
    let excess = skipped(ch) - config.tolerance;
    assert(excess <= 0 ==> excess * 500000 <= 0) by (nonlinear_arith);
    assert(excess >= 0 ==> excess * 500000 >= 0) by (nonlinear_arith);
}

/// Skipping everything costs 5000 kr for every card beyond the tolerance, and
/// nothing else.
pub proof fn law_buying_nothing(
    input: &WizardInput,
    config: &WizardConfig,
    ch: Seq<Option<usize>>,
)
    requires
        input.wf(),
        valid_choices(input, ch),
        forall|ci: int| 0 <= ci < ch.len() ==> #[trigger] ch[ci] is None,
    ensures
        score(input, config, ch) == if ch.len() > config.tolerance {
            (ch.len() - config.tolerance) * 500000
        } else {
            0
        },
        forall|si: int|
            0 <= si < input.stores() ==> #[trigger] store_total(input, ch, si) == 0 && store_count(
                input,
                ch,
                si,
            ) == 0,
        card_cost(input, ch) == 0,
        shipping_cost_of(input, ch) == 0,
        stores_used(input, ch) == 0,
        skipped(ch) == ch.len(),
{
    lemma_total_zero(paid(input, ch));
    assert forall|si: int| 0 <= si < input.stores() implies #[trigger] store_total(input, ch, si)
        == 0 && store_count(input, ch, si) == 0 && fees(input, ch)[si] == 0 && used_flags(
        input,
        ch,
    )[si] == 0 by {
        lemma_total_zero(paid_at(input, ch, si));
        lemma_total_zero(bought_at(input, ch, si));
    }
    assert forall|si: int| 0 <= si < input.stores() implies #[trigger] fees(input, ch)[si] == 0 by {
        assert(store_total(input, ch, si) == 0);
    }
    assert forall|si: int| 0 <= si < input.stores() implies #[trigger] used_flags(input, ch)[si]
        == 0 by {
        assert(store_total(input, ch, si) == 0);
    }
    lemma_total_zero(fees(input, ch));
    lemma_total_zero(used_flags(input, ch));
    lemma_all_skipped(ch);
}

proof fn lemma_all_skipped(ch: Seq<Option<usize>>)
    requires
        forall|ci: int| 0 <= ci < ch.len() ==> #[trigger] ch[ci] is None,
    ensures
        skipped(ch) == ch.len(),
    decreases ch.len(),
{
    if ch.len() > 0 {
        let rest = ch.drop_last();
        assert forall|ci: int| 0 <= ci < rest.len() implies #[trigger] rest[ci] is None by {
            assert(ch[ci] is None);
        }
        lemma_all_skipped(rest);
        assert(skip_flags(ch).drop_last() =~= skip_flags(rest));
        assert(ch[ch.len() - 1] is None);
    }
}

/// Buying a card that was skipped adds its price, one card and its price at its
/// store, and the change of that store's shipping; the store counts once.
pub proof fn law_buying_a_card(
    input: &WizardInput,
    ch: Seq<Option<usize>>,
    ci: int,
    oi: usize,
)
    requires
        input.wf(),
        valid_choices(input, ch),
        0 <= ci < ch.len(),
        ch[ci] is None,
        oi < input.cards@[ci].options@.len(),
    ensures
        ({
            let opt = input.cards@[ci].options@[oi as int];
            let at = opt.store_idx as int;
            let next = ch.update(ci, Some(oi));
            &&& card_cost(input, next) == card_cost(input, ch) + opt.price
            &&& skipped(next) == skipped(ch) - 1
            &&& store_total(input, next, at) == store_total(input, ch, at) + opt.price
            &&& store_count(input, next, at) == store_count(input, ch, at) + 1
            &&& shipping_cost_of(input, next) == shipping_cost_of(input, ch) - shipping_fee(
                input,
                at,
                store_total(input, ch, at),
                store_count(input, ch, at),
            ) + shipping_fee(
                input,
                at,
                store_total(input, next, at),
                store_count(input, next, at),
            )
            &&& stores_used(input, next) == stores_used(input, ch) + if store_count(input, ch, at)
                == 0 {
                1int
            } else {
                0
            }
            &&& forall|si: int|
                0 <= si < input.stores() && si != at ==> #[trigger] store_total(input, next, si)
                    == store_total(input, ch, si) && store_count(input, next, si) == store_count(
                    input,
                    ch,
                    si,
                )
        }),
{
    let new = Some(oi);
    let next = ch.update(ci, new);
    let at = input.options(ci)[oi as int].store_idx as int;
    assert(input.card_ok(ci));
    lemma_move(input, ch, ci, new);
    lemma_move_stores(input, ch, ci, new);
    lemma_bounds(input, ch);
    lemma_bounds(input, next);
    assert forall|si: int| 0 <= si < input.stores() && si != at implies #[trigger] store_total(
        input,
        next,
        si,
    ) == store_total(input, ch, si) && store_count(input, next, si) == store_count(input, ch, si) by {
        assert(!is_at(input, ci, new, si) && !is_at(input, ci, ch[ci], si));
    }
    assert(is_at(input, ci, new, at) && !is_at(input, ci, ch[ci], at));
}

/// The score of an assignment is that of its money, stores and skips; what it pays
/// for is the cards and one order per store.
pub proof fn law_score_is_money_stores_and_skips(
    input: &WizardInput,
    config: &WizardConfig,
    a: Seq<Option<usize>>,
    b: Seq<Option<usize>>,
)
    requires
        input.wf(),
        valid_choices(input, a),
        valid_choices(input, b),
        stores_used(input, a) == stores_used(input, b),
        skipped(a) == skipped(b),
    ensures
        score(input, config, a) - score(input, config, b) == (card_cost(input, a)
            + shipping_cost_of(input, a)) - (card_cost(input, b) + shipping_cost_of(input, b)),
{
}

/// What one order costs to ship: nothing without cards, a prohibitive fee below the
/// minimum order, else the base fee unless the order reaches the free threshold,
/// and the surcharge once it holds more cards than the limit.
pub proof fn law_order_shipping(input: &WizardInput, si: int, amount: int, count: int)
    requires
        input.wf(),
        0 <= si < input.stores(),
    ensures
        ({
            let base = input.shipping_bases@[si];
            let free = input.shipping_free_thresholds@[si];
            let least = input.min_orders@[si];
            let limit = input.shipping_card_limits@[si];
            let surcharge = input.shipping_card_surcharges@[si];
            let fee = shipping_fee(input, si, amount, count);
            &&& amount == 0 ==> fee == 0
            &&& 0 < amount < least ==> fee == 500000
            &&& amount >= least && 0 < amount && (free == 0 || amount < free) && (limit == 0
                || count <= limit) ==> fee == base
            &&& amount >= least && 0 < amount && (free == 0 || amount < free) && limit > 0 && count
                > limit ==> fee == base + surcharge
            &&& amount >= least && 0 < amount && free > 0 && amount >= free && (limit == 0 || count
                <= limit) ==> fee == 0
            &&& amount >= least && 0 < amount && free > 0 && amount >= free && limit > 0 && count
                > limit ==> fee == surcharge
        }),
{
}

} // verus!
