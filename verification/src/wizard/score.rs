//! What an assignment costs and how it is scored.

use crate::sums::{lemma_total_bounds, lemma_total_le, lemma_total_update, total};
use crate::wizard::model::{
    Strategy, WizardConfig, WizardInput, MAX_TOTAL, PRICE_WEIGHT, SKIP_PENALTY, STORE_PENALTY,
};
use vstd::prelude::*;

verus! {

/// The store of a choice for card `ci`; `None` when the card is skipped.
pub open spec fn store_of(input: &WizardInput, ci: int, choice: Option<usize>) -> Option<usize> {
    match choice {
        Some(oi) => Some(input.options(ci)[oi as int].store_idx),
        None => None,
    }
}

/// The choice for card `ci` buys it at store `si`.
pub open spec fn is_at(input: &WizardInput, ci: int, choice: Option<usize>, si: int) -> bool {
    store_of(input, ci, choice) matches Some(s) && s == si
}

/// The price of a choice for card `ci`; nothing when the card is skipped.
pub open spec fn price_of(input: &WizardInput, ci: int, choice: Option<usize>) -> int {
    match choice {
        Some(oi) => input.options(ci)[oi as int].price as int,
        None => 0,
    }
}

/// A choice names a listing of the card, or skips it.
pub open spec fn valid_choice(input: &WizardInput, ci: int, choice: Option<usize>) -> bool {
    choice matches Some(oi) ==> oi < input.options(ci).len()
}

/// One choice per card, each of them valid.
pub open spec fn valid_choices(input: &WizardInput, ch: Seq<Option<usize>>) -> bool {
    &&& ch.len() == input.n_cards()
    &&& forall|ci: int| 0 <= ci < ch.len() ==> #[trigger] valid_choice(input, ci, ch[ci])
}

/// What each card costs at store `si`: its price if it is bought there, else nothing.
pub open spec fn paid_at(input: &WizardInput, ch: Seq<Option<usize>>, si: int) -> Seq<int> {
    Seq::new(
        ch.len(),
        |ci: int|
            if is_at(input, ci, ch[ci], si) {
                price_of(input, ci, ch[ci])
            } else {
                0
            },
    )
}

/// One for each card that is bought at store `si`.
pub open spec fn bought_at(input: &WizardInput, ch: Seq<Option<usize>>, si: int) -> Seq<int> {
    Seq::new(
        ch.len(),
        |ci: int|
            if is_at(input, ci, ch[ci], si) {
                1
            } else {
                0int
            },
    )
}

/// Card subtotal of store `si`.
pub open spec fn store_total(input: &WizardInput, ch: Seq<Option<usize>>, si: int) -> int {
    total(paid_at(input, ch, si))
}

/// Number of cards bought at store `si`.
pub open spec fn store_count(input: &WizardInput, ch: Seq<Option<usize>>, si: int) -> int {
    total(bought_at(input, ch, si))
}

pub open spec fn paid(input: &WizardInput, ch: Seq<Option<usize>>) -> Seq<int> {
    Seq::new(ch.len(), |ci: int| price_of(input, ci, ch[ci]))
}

/// Sum of the prices of all chosen listings.
pub open spec fn card_cost(input: &WizardInput, ch: Seq<Option<usize>>) -> int {
    total(paid(input, ch))
}

pub open spec fn skip_flags(ch: Seq<Option<usize>>) -> Seq<int> {
    Seq::new(
        ch.len(),
        |ci: int|
            if ch[ci] is None {
                1
            } else {
                0int
            },
    )
}

/// Number of skipped cards.
pub open spec fn skipped(ch: Seq<Option<usize>>) -> int {
    total(skip_flags(ch))
}

/// Shipping for an order of `count` cards that cost `amount` together at store `si`.
pub open spec fn shipping_fee(input: &WizardInput, si: int, amount: int, count: int) -> int {
    if amount == 0 {
        0
    } else if amount < input.min_orders@[si] {
        SKIP_PENALTY as int
    } else {
        let base = if input.shipping_free_thresholds@[si] > 0 && amount
            >= input.shipping_free_thresholds@[si] {
            0
        } else {
            input.shipping_bases@[si] as int
        };
        let limit = input.shipping_card_limits@[si];
        if limit > 0 && count > limit {
            base + input.shipping_card_surcharges@[si]
        } else {
            base
        }
    }
}

/// What store `si` contributes to shipping.
pub open spec fn fee_at(input: &WizardInput, ch: Seq<Option<usize>>, si: int) -> int {
    shipping_fee(input, si, store_total(input, ch, si), store_count(input, ch, si))
}

/// One if store `si` is used, else zero.
pub open spec fn use_at(input: &WizardInput, ch: Seq<Option<usize>>, si: int) -> int {
    if store_count(input, ch, si) > 0 {
        1
    } else {
        0
    }
}

/// Shipping per store.
pub open spec fn fees(input: &WizardInput, ch: Seq<Option<usize>>) -> Seq<int> {
    Seq::new(
        input.stores(),
        |si: int| fee_at(input, ch, si),
    )
}

/// Shipping of the whole assignment.
pub open spec fn shipping_cost_of(input: &WizardInput, ch: Seq<Option<usize>>) -> int {
    total(fees(input, ch))
}

pub open spec fn used_flags(input: &WizardInput, ch: Seq<Option<usize>>) -> Seq<int> {
    Seq::new(
        input.stores(),
        |si: int| use_at(input, ch, si),
    )
}

/// Number of stores with at least one card.
pub open spec fn stores_used(input: &WizardInput, ch: Seq<Option<usize>>) -> int {
    total(used_flags(input, ch))
}

/// The composite score of pre-aggregated totals; lower is better.
pub open spec fn raw_score(
    cost: int,
    stores: int,
    skips: int,
    tolerance: int,
    strategy: Strategy,
) -> int {
    let excess = if skips > tolerance {
        skips - tolerance
    } else {
        0
    };
    let base = match strategy {
        Strategy::Simplest => stores * PRICE_WEIGHT,
        Strategy::Cheapest => if stores > 1 {
            (stores - 1) * STORE_PENALTY
        } else {
            0
        },
    };
    cost + base + excess * SKIP_PENALTY
}

/// The score of an assignment.
pub open spec fn score(input: &WizardInput, config: &WizardConfig, ch: Seq<Option<usize>>) -> int {
    raw_score(
        card_cost(input, ch) + shipping_cost_of(input, ch),
        stores_used(input, ch),
        skipped(ch),
        config.tolerance as int,
        config.strategy,
    )
}

/// Bounds on every aggregate of a valid assignment.
pub proof fn lemma_bounds(input: &WizardInput, ch: Seq<Option<usize>>)
    requires
        input.wf(),
        valid_choices(input, ch),
    ensures
        0 <= card_cost(input, ch) <= MAX_TOTAL,
        0 <= skipped(ch) <= ch.len(),
        0 <= stores_used(input, ch) <= input.stores(),
        0 <= shipping_cost_of(input, ch) <= SKIP_PENALTY * input.stores(),
        forall|si: int|
            0 <= si < input.stores() ==> 0 <= #[trigger] store_total(input, ch, si) <= card_cost(
                input,
                ch,
            ),
        forall|si: int|
            0 <= si < input.stores() ==> 0 <= #[trigger] store_count(input, ch, si) <= ch.len(),
{
    let p = paid(input, ch);
    let top = input.top_prices();
    assert forall|ci: int| 0 <= ci < p.len() implies 0 <= #[trigger] p[ci] <= top[ci] by {
        assert(input.card_ok(ci));
        assert(valid_choice(input, ci, ch[ci]));
    }
    assert forall|ci: int| 0 <= ci < p.len() implies 0 <= #[trigger] p[ci] <= u32::MAX by {
        assert(0 <= p[ci] <= top[ci]);
        assert(valid_choice(input, ci, ch[ci]));
    }
    lemma_total_le(p, top);
    lemma_total_bounds(p, u32::MAX as int);
    lemma_total_bounds(skip_flags(ch), 1);
    lemma_total_bounds(used_flags(input, ch), 1);
    let f = fees(input, ch);
    assert forall|si: int| 0 <= si < f.len() implies 0 <= #[trigger] f[si] <= SKIP_PENALTY by {
        assert(input.shipping_bases@[si] + input.shipping_card_surcharges@[si] <= SKIP_PENALTY);
    }
    lemma_total_bounds(f, SKIP_PENALTY as int);
    assert forall|si: int| 0 <= si < input.stores() implies 0 <= #[trigger] store_total(
        input,
        ch,
        si,
    ) <= card_cost(input, ch) by {
        let q = paid_at(input, ch, si);
        assert forall|ci: int| 0 <= ci < q.len() implies 0 <= #[trigger] q[ci] <= p[ci] by {
            assert(0 <= p[ci]);
        }
        lemma_total_le(q, p);
        assert forall|ci: int| 0 <= ci < q.len() implies 0 <= #[trigger] q[ci] <= u32::MAX by {
            assert(0 <= p[ci] <= u32::MAX);
        }
        lemma_total_bounds(q, u32::MAX as int);
    }
    assert forall|si: int| 0 <= si < input.stores() implies 0 <= #[trigger] store_count(
        input,
        ch,
        si,
    ) <= ch.len() by {
        lemma_total_bounds(bought_at(input, ch, si), 1);
    }
}

/// A bought card counts in the totals of its store.
pub proof fn lemma_member(input: &WizardInput, ch: Seq<Option<usize>>, ci: int)
    requires
        input.wf(),
        valid_choices(input, ch),
        0 <= ci < ch.len(),
        ch[ci] is Some,
    ensures
        ({
            let si = store_of(input, ci, ch[ci])->0 as int;
            &&& 0 <= si < input.stores()
            &&& price_of(input, ci, ch[ci]) <= store_total(input, ch, si)
            &&& 1 <= store_count(input, ch, si)
            &&& 1 <= stores_used(input, ch)
        }),
{
    let si = store_of(input, ci, ch[ci])->0 as int;
    assert(input.card_ok(ci));
    assert(valid_choice(input, ci, ch[ci]));
    let q = paid_at(input, ch, si);
    assert forall|k: int| 0 <= k < q.len() implies 0 <= #[trigger] q[k] <= u32::MAX by {
        assert(valid_choice(input, k, ch[k]));
    }
    lemma_total_bounds(q, u32::MAX as int);
    assert(q[ci] <= total(q));
    let b = bought_at(input, ch, si);
    lemma_total_bounds(b, 1);
    assert(b[ci] <= total(b));
    let u = used_flags(input, ch);
    lemma_total_bounds(u, 1);
    assert(u[si] <= total(u));
}

/// How the aggregates per card and per store react to a new choice for one card.
pub proof fn lemma_move(input: &WizardInput, ch: Seq<Option<usize>>, ci: int, new: Option<usize>)
    requires
        input.wf(),
        valid_choices(input, ch),
        0 <= ci < ch.len(),
        valid_choice(input, ci, new),
    ensures
        valid_choices(input, ch.update(ci, new)),
        card_cost(input, ch.update(ci, new)) == card_cost(input, ch) - price_of(input, ci, ch[ci])
            + price_of(input, ci, new),
        skipped(ch.update(ci, new)) == skipped(ch) - skip_flags(ch)[ci] + skip_flags(
            ch.update(ci, new),
        )[ci],
        forall|si: int|
            0 <= si < input.stores() ==> #[trigger] store_total(input, ch.update(ci, new), si)
                == store_total(input, ch, si) - paid_at(input, ch, si)[ci] + paid_at(
                input,
                ch.update(ci, new),
                si,
            )[ci],
        forall|si: int|
            0 <= si < input.stores() ==> #[trigger] store_count(input, ch.update(ci, new), si)
                == store_count(input, ch, si) - bought_at(input, ch, si)[ci] + bought_at(
                input,
                ch.update(ci, new),
                si,
            )[ci],
{
    let nch = ch.update(ci, new);
    assert forall|i: int| 0 <= i < nch.len() implies #[trigger] valid_choice(input, i, nch[i]) by {
        assert(valid_choice(input, i, ch[i]));
    }
    assert(paid(input, nch) =~= paid(input, ch).update(ci, price_of(input, ci, new)));
    lemma_total_update(paid(input, ch), ci, price_of(input, ci, new));
    assert(skip_flags(nch) =~= skip_flags(ch).update(ci, skip_flags(nch)[ci]));
    lemma_total_update(skip_flags(ch), ci, skip_flags(nch)[ci]);
    assert forall|si: int| 0 <= si < input.stores() implies #[trigger] store_total(input, nch, si)
        == store_total(input, ch, si) - paid_at(input, ch, si)[ci] + paid_at(input, nch, si)[ci] by {
        let v = paid_at(input, nch, si)[ci];
        assert(paid_at(input, nch, si) =~= paid_at(input, ch, si).update(ci, v));
        lemma_total_update(paid_at(input, ch, si), ci, v);
    }
    assert forall|si: int| 0 <= si < input.stores() implies #[trigger] store_count(input, nch, si)
        == store_count(input, ch, si) - bought_at(input, ch, si)[ci] + bought_at(
        input,
        nch,
        si,
    )[ci] by {
        let v = bought_at(input, nch, si)[ci];
        assert(bought_at(input, nch, si) =~= bought_at(input, ch, si).update(ci, v));
        lemma_total_update(bought_at(input, ch, si), ci, v);
    }
}

/// How the aggregates over all stores react to a new choice for one card: only
/// the store that loses the card and the store that gains it matter.
pub proof fn lemma_move_stores(
    input: &WizardInput,
    ch: Seq<Option<usize>>,
    ci: int,
    new: Option<usize>,
)
    requires
        input.wf(),
        valid_choices(input, ch),
        0 <= ci < ch.len(),
        valid_choice(input, ci, new),
    ensures
        ({
            let nch = ch.update(ci, new);
            let from = store_of(input, ci, ch[ci]);
            let to = store_of(input, ci, new);
            let lost_fee = match from {
                Some(a) => fee_at(input, nch, a as int) - fee_at(input, ch, a as int),
                None => 0,
            };
            let lost_use = match from {
                Some(a) => use_at(input, nch, a as int) - use_at(input, ch, a as int),
                None => 0,
            };
            let won_fee = match to {
                Some(b) if from != to => fee_at(input, nch, b as int) - fee_at(input, ch, b as int),
                _ => 0,
            };
            let won_use = match to {
                Some(b) if from != to => use_at(input, nch, b as int) - use_at(input, ch, b as int),
                _ => 0,
            };
            &&& shipping_cost_of(input, nch) == shipping_cost_of(input, ch) + lost_fee + won_fee
            &&& stores_used(input, nch) == stores_used(input, ch) + lost_use + won_use
        }),
{
    let nch = ch.update(ci, new);
    let from = store_of(input, ci, ch[ci]);
    let to = store_of(input, ci, new);
    lemma_move(input, ch, ci, new);
    assert(input.card_ok(ci));
    assert(valid_choice(input, ci, ch[ci]));
    let f0 = fees(input, ch);
    let u0 = used_flags(input, ch);
    assert forall|si: int|
        0 <= si < input.stores() && !is_at(input, ci, ch[ci], si) && !is_at(
            input,
            ci,
            new,
            si,
        ) implies #[trigger] fee_at(input, nch, si) == fee_at(input, ch, si) && use_at(
        input,
        nch,
        si,
    ) == use_at(input, ch, si) by {
        assert(store_total(input, nch, si) == store_total(input, ch, si));
        assert(store_count(input, nch, si) == store_count(input, ch, si));
    }
    match from {
        Some(a) => {
            let f1 = f0.update(a as int, fee_at(input, nch, a as int));
            let u1 = u0.update(a as int, use_at(input, nch, a as int));
            lemma_total_update(f0, a as int, fee_at(input, nch, a as int));
            lemma_total_update(u0, a as int, use_at(input, nch, a as int));
            match to {
                Some(b) if from != to => {
                    lemma_total_update(f1, b as int, fee_at(input, nch, b as int));
                    lemma_total_update(u1, b as int, use_at(input, nch, b as int));
                    assert(fees(input, nch) =~= f1.update(b as int, fee_at(input, nch, b as int)));
                    assert(used_flags(input, nch) =~= u1.update(
                        b as int,
                        use_at(input, nch, b as int),
                    ));
                },
                _ => {
                    assert(fees(input, nch) =~= f1);
                    assert(used_flags(input, nch) =~= u1);
                },
            }
        },
        None => {
            match to {
                Some(b) => {
                    lemma_total_update(f0, b as int, fee_at(input, nch, b as int));
                    lemma_total_update(u0, b as int, use_at(input, nch, b as int));
                    assert(fees(input, nch) =~= f0.update(b as int, fee_at(input, nch, b as int)));
                    assert(used_flags(input, nch) =~= u0.update(
                        b as int,
                        use_at(input, nch, b as int),
                    ));
                },
                None => {
                    assert(fees(input, nch) =~= f0);
                    assert(used_flags(input, nch) =~= u0);
                },
            }
        },
    }
}

impl WizardInput {
    /// Shipping cost of an order.  Below the store's minimum order it is a
    /// prohibitive penalty, so that the optimizer avoids such orders.
    pub fn shipping_cost(&self, si: usize, amount: u64, count: usize) -> (fee: u64)
        requires
            self.terms_ok(),
            si < self.stores(),
        ensures
            fee == shipping_fee(self, si as int, amount as int, count as int),
            fee <= SKIP_PENALTY,
    {
        assert(self.shipping_bases@[si as int] + self.shipping_card_surcharges@[si as int]
            <= SKIP_PENALTY);
        if amount == 0 {
            return 0;
        }
        if amount < self.min_orders[si] as u64 {
            return SKIP_PENALTY;
        }
        let free: bool = self.shipping_free_thresholds[si] > 0 && amount
            >= self.shipping_free_thresholds[si] as u64;
        let base: u64 = if free {
            0
        } else {
            self.shipping_bases[si] as u64
        };
        let limit: usize = self.shipping_card_limits[si] as usize;
        if limit > 0 && count > limit {
            base + self.shipping_card_surcharges[si] as u64
        } else {
            base
        }
    }
}

/// Canonical scoring function: every score in the wizard is this function of
/// the pre-aggregated totals.
pub fn compute_raw_score(
    total_cost: u64,
    num_stores: usize,
    num_skipped: usize,
    tolerance: usize,
    strategy: Strategy,
) -> (score: u64)
    requires
        raw_score(
            total_cost as int,
            num_stores as int,
            num_skipped as int,
            tolerance as int,
            strategy,
        ) <= u64::MAX,
    ensures
        score == raw_score(
            total_cost as int,
            num_stores as int,
            num_skipped as int,
            tolerance as int,
            strategy,
        ),
{
    let excess: u64 = if num_skipped > tolerance {
        (num_skipped - tolerance) as u64
    } else {
        0
    };
    match strategy {
        Strategy::Simplest => total_cost + num_stores as u64 * PRICE_WEIGHT + excess * SKIP_PENALTY,
        Strategy::Cheapest => {
            let extra: u64 = if num_stores > 1 {
                (num_stores - 1) as u64
            } else {
                0
            };
            total_cost + extra * STORE_PENALTY + excess * SKIP_PENALTY
        },
    }
}

} // verus!
