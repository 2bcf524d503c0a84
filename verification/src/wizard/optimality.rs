//! When the best of the store combinations is the best of all assignments.

use crate::order::{law_stable_sorted, stable_sorted};
use crate::sums::{
    lemma_total_add, lemma_total_bounds, lemma_total_le, lemma_total_zero, total,
};
use crate::wizard::candidates::{
    candidate_stores, covered, law_candidates_distinct, lemma_public_stores, store_class, StoreClass,
    SMALL_POOL,
};
use crate::wizard::combos::{law_subsets_complete, picks, subsets};
use crate::wizard::exhaustive::{
    best_from, best_large, best_pos, best_small, by_score, distinct_choices, estimate,
    exhaustive_result, gather, greedy_choice, greedy_choices, insert_top, known_stores,
    law_exhaustive_best, lemma_best_pos, lemma_greedy_choice, lemma_greedy_valid, lowest_base,
    lowest_prices, offer_all, size_base, subset_score, EXHAUSTIVE_MAX_STORES,
};
use crate::wizard::model::{WizardConfig, WizardInput, MAX_SHIPPING, SKIP_PENALTY};
use crate::wizard::neighbor::{floor_at, plain_move};
use crate::wizard::score::{
    bought_at, fee_at, fees, is_at, lemma_bounds, lemma_member, paid, paid_at, price_of,
    score, shipping_cost_of, skip_flags, skipped, store_count, store_of, stores_used,
    use_at, used_flags, valid_choice, valid_choices,
};
use crate::wizard::solution::{lemma_unused, lemma_used_below, used_below, used_stores};
use vstd::prelude::*;

verus! {

/// A store that ships any order for its base fee.
pub open spec fn ships_flat(input: &WizardInput, si: int) -> bool {
    &&& input.min_orders@[si] == 0
    &&& input.shipping_free_thresholds@[si] == 0
    &&& input.shipping_card_limits@[si] == 0 || input.n_cards() <= input.shipping_card_limits@[si]
}

/// A store that ships any order, and never for free.
pub open spec fn ships_paid(input: &WizardInput, si: int) -> bool {
    &&& input.min_orders@[si] == 0
    &&& input.shipping_free_thresholds@[si] == 0
}

pub open spec fn all_ship_paid(input: &WizardInput, cands: Seq<usize>) -> bool {
    forall|p: int| 0 <= p < cands.len() ==> ships_paid(input, #[trigger] cands[p] as int)
}

pub open spec fn all_ship_flat(input: &WizardInput, cands: Seq<usize>) -> bool {
    forall|p: int| 0 <= p < cands.len() ==> ships_flat(input, #[trigger] cands[p] as int)
}

/// No listing costs more than it weighs to skip a card.
pub open spec fn worth_buying(input: &WizardInput) -> bool {
    forall|ci: int, oi: int|
        0 <= ci < input.n_cards() && 0 <= oi < input.options(ci).len() ==> (#[trigger] input.options(
            ci,
        )[oi]).price <= SKIP_PENALTY
}

/// Every card is bought at one of the stores, or skipped.
pub open spec fn buys_at(input: &WizardInput, cands: Seq<usize>, ch: Seq<Option<usize>>) -> bool {
    forall|ci: int|
        0 <= ci < ch.len() ==> (#[trigger] store_of(input, ci, ch[ci]) matches Some(s)
            ==> cands.contains(s))
}

/// The positions below `k` of the candidates that an assignment uses.
spec fn used_pos(input: &WizardInput, cands: Seq<usize>, ch: Seq<Option<usize>>, k: int) -> Seq<int>
    decreases k,
{
    if k <= 0 {
        Seq::empty()
    } else if store_count(input, ch, cands[k - 1] as int) > 0 {
        used_pos(input, cands, ch, k - 1).push(k - 1)
    } else {
        used_pos(input, cands, ch, k - 1)
    }
}

/// The candidates that an assignment uses, in their order.
spec fn used_cands(input: &WizardInput, cands: Seq<usize>, ch: Seq<Option<usize>>) -> Seq<usize> {
    used_pos(input, cands, ch, cands.len() as int).map_values(|p: int| cands[p])
}

proof fn lemma_used_pos(input: &WizardInput, cands: Seq<usize>, ch: Seq<Option<usize>>, k: int)
    requires
        0 <= k <= cands.len(),
    ensures
        picks(used_pos(input, cands, ch, k), 0, k),
        forall|p: int|
            0 <= p < k && store_count(input, ch, #[trigger] cands[p] as int) > 0 ==> used_pos(
                input,
                cands,
                ch,
                k,
            ).contains(p),
        forall|i: int|
            0 <= i < used_pos(input, cands, ch, k).len() ==> store_count(
                input,
                ch,
                cands[#[trigger] used_pos(input, cands, ch, k)[i]] as int,
            ) > 0,
    decreases k,
{
    if k > 0 {
        lemma_used_pos(input, cands, ch, k - 1);
        let rest = used_pos(input, cands, ch, k - 1);
        let all = used_pos(input, cands, ch, k);
        assert forall|p: int|
            0 <= p < k && store_count(input, ch, #[trigger] cands[p] as int) > 0 implies all.contains(
            p,
        ) by {
            if p < k - 1 {
                assert(rest.contains(p));
                let i = choose|i: int| 0 <= i < rest.len() && rest[i] == p;
                assert(all[i] == p);
            } else {
                assert(all[rest.len() as int] == p);
            }
        }
        assert forall|i: int| 0 <= i < all.len() implies 0 <= #[trigger] all[i] < k by {
            if i < rest.len() {
                assert(all[i] == rest[i]);
            }
        }
        assert forall|i: int, j: int| 0 <= i < j < all.len() implies #[trigger] all[i]
            < #[trigger] all[j] by {
            assert(all[i] == rest[i]);
            if j < rest.len() {
                assert(all[j] == rest[j]);
            }
        }
        assert forall|i: int| 0 <= i < all.len() implies store_count(
            input,
            ch,
            cands[#[trigger] all[i]] as int,
        ) > 0 by {
            if i < rest.len() {
                assert(all[i] == rest[i]);
            }
        }
    }
}

/// What the list of used candidates is.
proof fn lemma_used_cands(input: &WizardInput, cands: Seq<usize>, ch: Seq<Option<usize>>)
    requires
        known_stores(input, cands),
        cands.no_duplicates(),
    ensures
        subsets(cands, Seq::empty(), used_cands(input, cands, ch).len(), 0).contains(
            used_cands(input, cands, ch),
        ),
        known_stores(input, used_cands(input, cands, ch)),
        used_cands(input, cands, ch).no_duplicates(),
        forall|p: int|
            0 <= p < cands.len() && store_count(input, ch, #[trigger] cands[p] as int) > 0
                ==> used_cands(input, cands, ch).contains(cands[p]),
        forall|i: int|
            0 <= i < used_cands(input, cands, ch).len() ==> cands.contains(
                #[trigger] used_cands(input, cands, ch)[i],
            ) && store_count(input, ch, used_cands(input, cands, ch)[i] as int) > 0,
{
    let pos = used_pos(input, cands, ch, cands.len() as int);
    let u = used_cands(input, cands, ch);
    lemma_used_pos(input, cands, ch, cands.len() as int);
    law_subsets_complete(cands, Seq::empty(), 0, pos);
    assert(Seq::<usize>::empty() + pos.map_values(|i: int| cands[i]) =~= u);
    assert forall|i: int| 0 <= i < u.len() implies cands.contains(#[trigger] u[i]) && store_count(
        input,
        ch,
        u[i] as int,
    ) > 0 && u[i] < input.stores() by {
        assert(0 <= pos[i] < cands.len());
        assert(u[i] == cands[pos[i]]);
    }
    assert forall|i: int, j: int| 0 <= i < j < u.len() implies u[i] != u[j] by {
        assert(pos[i] < pos[j]);
        assert(0 <= pos[i] && pos[j] < cands.len());
        assert(cands[pos[i]] != cands[pos[j]]);
    }
    assert forall|p: int|
        0 <= p < cands.len() && store_count(input, ch, #[trigger] cands[p] as int) > 0 implies u.contains(
        cands[p],
    ) by {
        assert(pos.contains(p));
        let i = choose|i: int| 0 <= i < pos.len() && pos[i] == p;
        assert(u[i] == cands[p]);
    }
}

/// The used stores below `k`: each once, and exactly those with cards.
proof fn lemma_used_below_set(input: &WizardInput, ch: Seq<Option<usize>>, k: int)
    ensures
        used_below(input, ch, k).no_duplicates(),
        forall|si: int| #[trigger]
            used_below(input, ch, k).contains(si) <==> (0 <= si < k && store_count(input, ch, si)
                > 0),
    decreases k,
{
    let all = used_below(input, ch, k);
    if k > 0 {
        lemma_used_below_set(input, ch, k - 1);
        let rest = used_below(input, ch, k - 1);
        assert forall|si: int| #[trigger]
            all.contains(si) <==> (0 <= si < k && store_count(input, ch, si) > 0) by {
            let used = 0 <= si < k && store_count(input, ch, si) > 0;
            assert(rest.contains(si) <==> (0 <= si < k - 1 && store_count(input, ch, si) > 0));
            if store_count(input, ch, k - 1) > 0 {
                assert(all == rest.push(k - 1));
                if all.contains(si) {
                    let i = choose|i: int| 0 <= i < all.len() && all[i] == si;
                    if i < rest.len() {
                        assert(rest[i] == si);
                        assert(rest.contains(si));
                    } else {
                        assert(si == k - 1);
                    }
                    assert(used);
                }
                if used {
                    if si < k - 1 {
                        let i = choose|i: int| 0 <= i < rest.len() && rest[i] == si;
                        assert(all[i] == si);
                    } else {
                        assert(all[rest.len() as int] == si);
                    }
                    assert(all.contains(si));
                }
            } else {
                assert(all == rest);
                assert(used ==> si < k - 1);
            }
        }
        if store_count(input, ch, k - 1) > 0 {
            assert(!rest.contains(k - 1));
            assert forall|i: int, j: int| 0 <= i < all.len() && 0 <= j < all.len() && i != j implies all[i]
                != all[j] by {
                if i < rest.len() && j < rest.len() {
                    assert(rest[i] != rest[j]);
                } else if i < rest.len() {
                    assert(rest.contains(rest[i]));
                } else {
                    assert(rest.contains(rest[j]));
                }
            }
        }
    } else {
        assert(all =~= Seq::empty());
    }
}

/// A bought card makes its store used.
proof fn lemma_used_where(input: &WizardInput, ch: Seq<Option<usize>>, si: int)
    requires
        input.wf(),
        valid_choices(input, ch),
        0 <= si < input.stores(),
        store_count(input, ch, si) > 0,
    ensures
        exists|ci: int| 0 <= ci < ch.len() && #[trigger] is_at(input, ci, ch[ci], si),
{
    let b = bought_at(input, ch, si);
    if forall|ci: int| 0 <= ci < ch.len() ==> !#[trigger] is_at(input, ci, ch[ci], si) {
        assert forall|ci: int| 0 <= ci < b.len() implies #[trigger] b[ci] == 0 by {
            assert(!is_at(input, ci, ch[ci], si));
        }
        lemma_total_zero(b);
    }
}

/// There are as many used candidates as used stores.
proof fn lemma_used_count(input: &WizardInput, cands: Seq<usize>, ch: Seq<Option<usize>>)
    requires
        input.wf(),
        valid_choices(input, ch),
        known_stores(input, cands),
        cands.no_duplicates(),
        buys_at(input, cands, ch),
    ensures
        used_cands(input, cands, ch).len() == stores_used(input, ch),
        forall|si: int|
            0 <= si < input.stores() && #[trigger] store_count(input, ch, si) > 0 ==> used_cands(
                input,
                cands,
                ch,
            ).contains(si as usize),
{
    let m = input.stores() as int;
    let u = used_cands(input, cands, ch);
    let v = used_stores(input, ch);
    let w = u.map_values(|s: usize| s as int);
    lemma_used_cands(input, cands, ch);
    lemma_used_below(input, ch, m);
    lemma_used_below_set(input, ch, m);
    assert(used_flags(input, ch).take(m) =~= used_flags(input, ch));
    assert forall|si: int|
        0 <= si < m && #[trigger] store_count(input, ch, si) > 0 implies u.contains(si as usize) by {
        lemma_used_where(input, ch, si);
        let ci = choose|ci: int| 0 <= ci < ch.len() && #[trigger] is_at(input, ci, ch[ci], si);
        assert(store_of(input, ci, ch[ci]) == Some(si as usize));
        assert(cands.contains(si as usize));
        let p = choose|p: int| 0 <= p < cands.len() && cands[p] == si as usize;
        assert(u.contains(cands[p]));
    }
    assert forall|si: int| w.contains(si) <==> v.contains(si) by {
        if w.contains(si) {
            let i = choose|i: int| 0 <= i < w.len() && w[i] == si;
            assert(u[i] as int == si);
            assert(u[i] < input.stores());
            assert(store_count(input, ch, si) > 0);
        }
        if v.contains(si) {
            assert(store_count(input, ch, si) > 0);
            assert(u.contains(si as usize));
            let i = choose|i: int| 0 <= i < u.len() && u[i] == si as usize;
            assert(w[i] == si);
        }
    }
    assert forall|i: int, j: int| 0 <= i < w.len() && 0 <= j < w.len() && i != j implies w[i]
        != w[j] by {
        assert(u[i] != u[j]);
    }
    v.unique_seq_to_set();
    w.unique_seq_to_set();
    assert(v.to_set() =~= w.to_set());
}

/// What a card weighs in a score without tolerance: its price, or what it costs
/// to skip it.
spec fn weights(input: &WizardInput, ch: Seq<Option<usize>>) -> Seq<int> {
    Seq::new(
        ch.len(),
        |ci: int|
            if ch[ci] is None {
                SKIP_PENALTY as int
            } else {
                price_of(input, ci, ch[ci])
            },
    )
}

proof fn lemma_total_scaled(s: Seq<int>, t: Seq<int>, c: int)
    requires
        s.len() == t.len(),
        forall|i: int| 0 <= i < s.len() ==> #[trigger] s[i] == c * t[i],
    ensures
        total(s) == c * total(t),
    decreases s.len(),
{
    if s.len() > 0 {
        let a = s.drop_last();
        let b = t.drop_last();
        assert forall|i: int| 0 <= i < a.len() implies #[trigger] a[i] == c * b[i] by {
            assert(s[i] == c * t[i]);
        }
        lemma_total_scaled(a, b, c);
        assert(s[s.len() - 1] == c * t[t.len() - 1]);
        assert(c * (total(b) + t.last()) == c * total(b) + c * t.last()) by (nonlinear_arith);
    } else {
        assert(c * 0 == 0) by (nonlinear_arith);
    }
}

/// A score without tolerance by its parts.
proof fn lemma_score_parts(input: &WizardInput, config: &WizardConfig, ch: Seq<Option<usize>>)
    requires
        input.wf(),
        valid_choices(input, ch),
        config.tolerance == 0,
    ensures
        score(input, config, ch) == total(weights(input, ch)) + shipping_cost_of(input, ch)
            + size_base(stores_used(input, ch), config.strategy),
{
    let c = SKIP_PENALTY as int;
    let flags = skip_flags(ch);
    let penalties = Seq::new(ch.len(), |ci: int| c * flags[ci]);
    lemma_total_scaled(penalties, flags, c);
    assert forall|ci: int| 0 <= ci < ch.len() implies #[trigger] weights(input, ch)[ci] == paid(
        input,
        ch,
    )[ci] + penalties[ci] by {
        assert(c * 0 == 0 && c * 1 == c) by (nonlinear_arith);
    }
    lemma_total_add(weights(input, ch), paid(input, ch), penalties);
    lemma_bounds(input, ch);
    assert(skipped(ch) * SKIP_PENALTY == c * skipped(ch)) by (nonlinear_arith)
        requires
            c == SKIP_PENALTY,
    ;
}

/// A used store that ships flat charges its base fee.
proof fn lemma_flat_fee(input: &WizardInput, ch: Seq<Option<usize>>, si: int)
    requires
        input.wf(),
        valid_choices(input, ch),
        0 <= si < input.stores(),
        ships_flat(input, si),
        store_count(input, ch, si) > 0,
    ensures
        fee_at(input, ch, si) == input.shipping_bases@[si],
{
    lemma_used_where(input, ch, si);
    let ci = choose|ci: int| 0 <= ci < ch.len() && #[trigger] is_at(input, ci, ch[ci], si);
    assert(valid_choice(input, ci, ch[ci]));
    assert(input.card_ok(ci));
    lemma_member(input, ch, ci);
    lemma_bounds(input, ch);
}

/// A used store that does not ship for free charges at least its base fee.
proof fn lemma_paid_fee(input: &WizardInput, ch: Seq<Option<usize>>, si: int)
    requires
        input.wf(),
        valid_choices(input, ch),
        0 <= si < input.stores(),
        ships_paid(input, si),
        store_count(input, ch, si) > 0,
    ensures
        input.shipping_bases@[si] <= fee_at(input, ch, si) <= MAX_SHIPPING,
{
    lemma_used_where(input, ch, si);
    let ci = choose|ci: int| 0 <= ci < ch.len() && #[trigger] is_at(input, ci, ch[ci], si);
    assert(valid_choice(input, ci, ch[ci]));
    assert(input.card_ok(ci));
    lemma_member(input, ch, ci);
    lemma_bounds(input, ch);
    assert(input.shipping_bases@[si] + input.shipping_card_surcharges@[si] <= MAX_SHIPPING);
}

/// A listing of a card at a store is no cheaper than the store's cheapest.
proof fn lemma_cheapest_there(input: &WizardInput, ci: int, choice: Option<usize>, si: int)
    requires
        input.wf(),
        worth_buying(input),
        0 <= ci < input.n_cards(),
        valid_choice(input, ci, choice),
        is_at(input, ci, choice, si),
    ensures
        0 <= si < input.stores(),
        input.cheapest_price(ci, si) <= price_of(input, ci, choice),
{
    assert(input.card_ok(ci));
    let oi = choice->0 as int;
    assert(input.options(ci)[oi].store_idx == si);
    assert(input.options(ci)[oi].price <= SKIP_PENALTY);
    assert(input.cell_ok(ci, si));
}

/// Buying every card at the cheapest of the stores in use does not score higher,
/// where these ship flat.
proof fn lemma_greedy_no_worse(
    input: &WizardInput,
    config: &WizardConfig,
    cands: Seq<usize>,
    ch: Seq<Option<usize>>,
)
    requires
        input.wf(),
        known_stores(input, cands),
        cands.no_duplicates(),
        config.tolerance == 0,
        all_ship_flat(input, cands),
        worth_buying(input),
        valid_choices(input, ch),
        buys_at(input, cands, ch),
        stores_used(input, ch) >= 1,
    ensures
        ({
            let u = used_cands(input, cands, ch);
            let g = greedy_choices(input, u);
            &&& valid_choices(input, g)
            &&& buys_at(input, u, g)
            &&& 1 <= stores_used(input, g) <= stores_used(input, ch)
            &&& score(input, config, g) <= score(input, config, ch)
        }),
{
    let u = used_cands(input, cands, ch);
    let g = greedy_choices(input, u);
    lemma_used_cands(input, cands, ch);
    lemma_used_count(input, cands, ch);
    lemma_greedy_valid(input, u);
    assert forall|ci: int| 0 <= ci < g.len() implies (#[trigger] store_of(input, ci, g[ci])
        matches Some(s) ==> u.contains(s)) by {
        lemma_greedy_choice(input, u, ci);
    }
    let wg = weights(input, g);
    let wc = weights(input, ch);
    assert forall|ci: int| 0 <= ci < wg.len() implies wg[ci] <= #[trigger] wc[ci] by {
        lemma_greedy_choice(input, u, ci);
        lemma_best_pos(input, ci, u);
        assert(valid_choice(input, ci, ch[ci]));
        assert(valid_choice(input, ci, g[ci]));
        match ch[ci] {
            Some(oi) => {
                let s = store_of(input, ci, ch[ci])->0;
                assert(is_at(input, ci, ch[ci], s as int));
                lemma_cheapest_there(input, ci, ch[ci], s as int);
                lemma_member(input, ch, ci);
                assert(u.contains(s as int as usize));
                let p = choose|p: int| 0 <= p < u.len() && u[p] == s;
                assert(input.cheapest_price(ci, u[p] as int) <= price_of(input, ci, ch[ci]));
                assert(price_of(input, ci, ch[ci]) <= SKIP_PENALTY) by {
                    assert(input.options(ci)[oi as int].price <= SKIP_PENALTY);
                }
            },
            None => {
                if g[ci] is Some {
                    let oi = g[ci]->0;
                    assert(input.options(ci)[oi as int].price <= SKIP_PENALTY);
                }
            },
        }
    }
    lemma_total_le(wg, wc);
    let fg = fees(input, g);
    let fc = fees(input, ch);
    let ug = used_flags(input, g);
    let uc = used_flags(input, ch);
    assert forall|si: int| 0 <= si < input.stores() implies (store_count(input, g, si) > 0
        ==> #[trigger] store_count(input, ch, si) > 0 && ships_flat(input, si)) by {
        if store_count(input, g, si) > 0 {
            lemma_used_where(input, g, si);
            let ci = choose|ci: int| 0 <= ci < g.len() && #[trigger] is_at(input, ci, g[ci], si);
            assert(store_of(input, ci, g[ci]) == Some(si as usize));
            assert(u.contains(si as usize));
            let i = choose|i: int| 0 <= i < u.len() && u[i] == si as usize;
            assert(cands.contains(u[i]));
            let p = choose|p: int| 0 <= p < cands.len() && cands[p] == u[i];
            assert(ships_flat(input, cands[p] as int));
        }
    }
    assert forall|si: int| 0 <= si < fg.len() implies fg[si] <= #[trigger] fc[si] by {
        if store_count(input, g, si) > 0 {
            assert(store_count(input, ch, si) > 0);
            lemma_flat_fee(input, g, si);
            lemma_flat_fee(input, ch, si);
        } else {
            lemma_unused(input, g, si);
            lemma_fee_nonnegative(input, ch, si);
        }
    }
    lemma_total_le(fg, fc);
    assert forall|si: int| 0 <= si < ug.len() implies ug[si] <= #[trigger] uc[si] by {
        if store_count(input, g, si) > 0 {
            assert(store_count(input, ch, si) > 0);
        }
    }
    lemma_total_le(ug, uc);
    lemma_score_parts(input, config, g);
    lemma_score_parts(input, config, ch);
    lemma_bounds(input, g);
    lemma_size_base(stores_used(input, g), stores_used(input, ch), config);
    // A store in use sells a card, which is then bought.
    let s = u[0];
    assert(store_count(input, ch, s as int) > 0);
    assert(s < input.stores());
    lemma_used_where(input, ch, s as int);
    let ci = choose|ci: int| 0 <= ci < ch.len() && #[trigger] is_at(input, ci, ch[ci], s as int);
    assert(valid_choice(input, ci, ch[ci]));
    lemma_cheapest_there(input, ci, ch[ci], s as int);
    assert(price_of(input, ci, ch[ci]) <= SKIP_PENALTY) by {
        assert(input.options(ci)[ch[ci]->0 as int].price <= SKIP_PENALTY);
    }
    lemma_greedy_choice(input, u, ci);
    lemma_best_pos(input, ci, u);
    assert(input.cheapest_price(ci, u[0] as int) < u32::MAX);
    assert(g[ci] is Some);
    lemma_member(input, g, ci);
}

proof fn lemma_fee_nonnegative(input: &WizardInput, ch: Seq<Option<usize>>, si: int)
    ensures
        fee_at(input, ch, si) >= 0,
{
}

proof fn lemma_size_base(a: int, b: int, config: &WizardConfig)
    requires
        0 <= a <= b,
    ensures
        size_base(a, config.strategy) <= size_base(b, config.strategy),
{
    assert(a * 50000 <= b * 50000) by (nonlinear_arith)
        requires
            a <= b,
    ;
    assert((a - 1) * 5000 <= (b - 1) * 5000) by (nonlinear_arith)
        requires
            a <= b,
    ;
}

/// The lowest base fee is no higher than that of any candidate.
proof fn lemma_lowest_base(input: &WizardInput, cands: Seq<usize>, p: int)
    requires
        0 <= p < cands.len(),
    ensures
        lowest_base(input, cands) <= input.shipping_bases@[cands[p] as int],
    decreases cands.len(),
{
    if p < cands.len() - 1 {
        lemma_lowest_base(input, cands.drop_last(), p);
    }
}

/// Where every one of the stores is used, the estimate for their number is a
/// lower bound.
proof fn lemma_estimate(
    input: &WizardInput,
    config: &WizardConfig,
    cands: Seq<usize>,
    g: Seq<Option<usize>>,
)
    requires
        input.wf(),
        known_stores(input, cands),
        config.tolerance == 0,
        all_ship_paid(input, cands),
        worth_buying(input),
        valid_choices(input, g),
        buys_at(input, cands, g),
        stores_used(input, g) >= 1,
    ensures
        estimate(input, config, cands, stores_used(input, g)) <= score(input, config, g),
{
    let low = lowest_prices(input, cands);
    let wg = weights(input, g);
    assert forall|ci: int| 0 <= ci < low.len() implies low[ci] <= #[trigger] wg[ci] by {
        lemma_best_pos(input, ci, cands);
        assert(valid_choice(input, ci, g[ci]));
        match g[ci] {
            Some(oi) => {
                let s = store_of(input, ci, g[ci])->0;
                assert(cands.contains(s));
                let p = choose|p: int| 0 <= p < cands.len() && cands[p] == s;
                lemma_cheapest_there(input, ci, g[ci], s as int);
                assert(input.cheapest_price(ci, cands[p] as int) <= price_of(input, ci, g[ci]));
                assert(input.options(ci)[oi as int].price <= SKIP_PENALTY);
            },
            None => {
                if let Some(p) = best_pos(input, ci, cands) {
                    lemma_greedy_choice(input, cands, ci);
                    let c = greedy_choice(input, cands, ci);
                    assert(input.options(ci)[c->0 as int].price <= SKIP_PENALTY);
                }
            },
        }
    }
    lemma_total_le(low, wg);
    lemma_score_parts(input, config, g);
    // Some store is used, and charges at least the lowest base fee.
    let flags = used_flags(input, g);
    if forall|si: int| 0 <= si < input.stores() ==> #[trigger] store_count(input, g, si) <= 0 {
        assert forall|si: int| 0 <= si < flags.len() implies #[trigger] flags[si] == 0 by {
            assert(store_count(input, g, si) <= 0);
        }
        lemma_total_zero(flags);
    }
    let si = choose|si: int| 0 <= si < input.stores() && #[trigger] store_count(input, g, si) > 0;
    lemma_used_where(input, g, si);
    let ci = choose|ci: int| 0 <= ci < g.len() && #[trigger] is_at(input, ci, g[ci], si);
    assert(store_of(input, ci, g[ci]) == Some(si as usize));
    assert(cands.contains(si as usize));
    let p = choose|p: int| 0 <= p < cands.len() && cands[p] == si as usize;
    lemma_lowest_base(input, cands, p);
    assert(ships_paid(input, cands[p] as int));
    lemma_paid_fee(input, g, si);
    let f = fees(input, g);
    lemma_bounds(input, g);
    assert forall|k: int| 0 <= k < f.len() implies 0 <= #[trigger] f[k] <= SKIP_PENALTY by {
        assert(input.shipping_bases@[k] + input.shipping_card_surcharges@[k] <= SKIP_PENALTY);
    }
    lemma_total_bounds(f, SKIP_PENALTY as int);
    assert(f[si] <= total(f));
}

/// Without tolerance, where the candidates ship flat and no listing costs more
/// than skipping a card weighs, the best solution of an exhaustive search scores
/// no higher than any assignment that buys from up to five of the candidates.
pub proof fn law_exhaustive_optimal(
    input: &WizardInput,
    config: &WizardConfig,
    cands: Seq<usize>,
    ch: Seq<Option<usize>>,
)
    requires
        input.wf(),
        known_stores(input, cands),
        cands.no_duplicates(),
        config.tolerance == 0,
        all_ship_flat(input, cands),
        worth_buying(input),
        valid_choices(input, ch),
        buys_at(input, cands, ch),
        1 <= stores_used(input, ch) <= EXHAUSTIVE_MAX_STORES,
    ensures
        exhaustive_result(input, config, cands).len() > 0,
        subset_score(input, config, exhaustive_result(input, config, cands)[0]) <= score(
            input,
            config,
            ch,
        ),
    decreases stores_used(input, ch),
{
    let u = used_cands(input, cands, ch);
    let g = greedy_choices(input, u);
    lemma_used_cands(input, cands, ch);
    lemma_used_count(input, cands, ch);
    lemma_greedy_no_worse(input, config, cands, ch);
    assert forall|ci: int| 0 <= ci < g.len() implies (#[trigger] store_of(input, ci, g[ci])
        matches Some(s) ==> cands.contains(s)) by {
        if let Some(s) = store_of(input, ci, g[ci]) {
            assert(u.contains(s));
            let i = choose|i: int| 0 <= i < u.len() && u[i] == s;
            assert(cands.contains(u[i]));
        }
    }
    if stores_used(input, g) < stores_used(input, ch) {
        law_exhaustive_optimal(input, config, cands, g);
    } else {
        law_exhaustive_best(input, config, cands, u.len(), u);
        assert forall|p: int| 0 <= p < cands.len() implies ships_paid(
            input,
            #[trigger] cands[p] as int,
        ) by {
            assert(ships_flat(input, cands[p] as int));
        }
        lemma_estimate(input, config, cands, g);
    }
}

/// Where few stores have listings, all of them ship flat and no listing costs more
/// than skipping a card weighs, an exhaustive search without tolerance finds the
/// best of all assignments that buy from up to five stores and from no private
/// seller.
pub proof fn law_small_input_optimal(
    input: &WizardInput,
    config: &WizardConfig,
    ch: Seq<Option<usize>>,
)
    requires
        input.wf(),
        input.stores() <= SMALL_POOL,
        config.tolerance == 0,
        forall|si: int| 0 <= si < input.stores() ==> #[trigger] ships_flat(input, si),
        worth_buying(input),
        valid_choices(input, ch),
        forall|ci: int|
            0 <= ci < ch.len() ==> (#[trigger] store_of(input, ci, ch[ci]) matches Some(s)
                ==> store_class(input, s as int) != StoreClass::Private),
        1 <= stores_used(input, ch) <= EXHAUSTIVE_MAX_STORES,
    ensures
        ({
            let result = exhaustive_result(input, config, candidate_stores(input));
            &&& result.len() > 0
            &&& subset_score(input, config, result[0]) <= score(input, config, ch)
        }),
{
    let cands = candidate_stores(input);
    lemma_public_stores(input, input.stores() as int);
    law_candidates_distinct(input);
    assert forall|p: int| 0 <= p < cands.len() implies (#[trigger] cands[p]) < input.stores()
        && ships_flat(input, cands[p] as int) by {
        assert(ships_flat(input, cands[p] as int));
    }
    assert forall|ci: int| 0 <= ci < ch.len() implies (#[trigger] store_of(input, ci, ch[ci])
        matches Some(s) ==> cands.contains(s)) by {
        if let Some(s) = store_of(input, ci, ch[ci]) {
            assert(valid_choice(input, ci, ch[ci]));
            assert(input.card_ok(ci));
            assert(cands.contains(s as int as usize));
        }
    }
    law_exhaustive_optimal(input, config, cands, ch);
}

/// The candidates at the given positions.
pub open spec fn at_positions(cands: Seq<usize>, positions: Seq<int>) -> Seq<usize> {
    positions.map_values(|i: int| cands[i])
}

/// No listing costs as much as this.
pub open spec fn all_below(input: &WizardInput, price: int) -> bool {
    forall|ci: int, oi: int|
        0 <= ci < input.n_cards() && 0 <= oi < input.options(ci).len() ==> (#[trigger] input.options(
            ci,
        )[oi]).price < price
}

/// Every card is carried by one of the candidates.
pub open spec fn all_carried(input: &WizardInput, cands: Seq<usize>) -> bool {
    forall|ci: int| 0 <= ci < input.n_cards() ==> #[trigger] covered(input, cands, ci)
}

proof fn lemma_positions(input: &WizardInput, cands: Seq<usize>, positions: Seq<int>)
    requires
        known_stores(input, cands),
        cands.no_duplicates(),
        picks(positions, 0, cands.len() as int),
    ensures
        known_stores(input, at_positions(cands, positions)),
        at_positions(cands, positions).no_duplicates(),
        forall|i: int|
            0 <= i < positions.len() ==> cands.contains(
                #[trigger] at_positions(cands, positions)[i],
            ),
{
    let s = at_positions(cands, positions);
    assert forall|i: int| 0 <= i < s.len() implies (#[trigger] s[i]) < input.stores()
        && cands.contains(s[i]) by {
        assert(0 <= positions[i] < cands.len());
        assert(s[i] == cands[positions[i]]);
    }
    assert forall|i: int, j: int| 0 <= i < s.len() && 0 <= j < s.len() && i != j implies s[i]
        != s[j] by {
        let a = if i < j {
            i
        } else {
            j
        };
        let b = if i < j {
            j
        } else {
            i
        };
        assert(positions[a] < positions[b]);
        assert(0 <= positions[a] && positions[b] < cands.len());
        assert(cands[positions[a]] != cands[positions[b]]);
    }
}

/// The stores that a set of stores makes no use of do not matter: without them,
/// every card is bought where it was.
proof fn lemma_greedy_of_used(input: &WizardInput, cands: Seq<usize>, positions: Seq<int>)
    requires
        input.wf(),
        known_stores(input, cands),
        cands.no_duplicates(),
        picks(positions, 0, cands.len() as int),
    ensures
        ({
            let s = at_positions(cands, positions);
            let g = greedy_choices(input, s);
            let u = used_cands(input, cands, g);
            &&& valid_choices(input, g)
            &&& buys_at(input, cands, g)
            &&& u.len() == stores_used(input, g)
            &&& u.len() <= s.len()
            &&& greedy_choices(input, u) == g
        }),
{
    let s = at_positions(cands, positions);
    let g = greedy_choices(input, s);
    let u = used_cands(input, cands, g);
    let pos = used_pos(input, cands, g, cands.len() as int);
    lemma_positions(input, cands, positions);
    lemma_greedy_valid(input, s);
    assert forall|ci: int| 0 <= ci < g.len() implies (#[trigger] store_of(input, ci, g[ci])
        matches Some(st) ==> cands.contains(st) && s.contains(st)) by {
        lemma_greedy_choice(input, s, ci);
        if let Some(p) = best_pos(input, ci, s) {
            assert(cands.contains(s[p]));
        }
    }
    lemma_used_cands(input, cands, g);
    lemma_used_count(input, cands, g);
    lemma_used_count(input, s, g);
    lemma_used_pos(input, s, g, s.len() as int);
    lemma_picks_len(used_pos(input, s, g, s.len() as int), s.len() as int);
    lemma_used_pos(input, cands, g, cands.len() as int);
    let h = greedy_choices(input, u);
    assert forall|ci: int| 0 <= ci < g.len() implies h[ci] == g[ci] by {
        lemma_greedy_choice(input, s, ci);
        lemma_greedy_choice(input, u, ci);
        lemma_best_pos(input, ci, s);
        lemma_best_pos(input, ci, u);
        match best_pos(input, ci, s) {
            Some(p) => {
                let st = s[p];
                assert(store_of(input, ci, g[ci]) == Some(st));
                assert(is_at(input, ci, g[ci], st as int));
                assert(valid_choice(input, ci, g[ci]));
                lemma_member(input, g, ci);
                assert(0 <= positions[p] < cands.len());
                assert(cands[positions[p]] == st);
                assert(pos.contains(positions[p]));
                let i = choose|i: int| 0 <= i < pos.len() && pos[i] == positions[p];
                assert(u[i] == st);
                assert(input.cheapest_price(ci, u[i] as int) < u32::MAX);
                let b = best_pos(input, ci, u)->0;
                assert(store_count(input, g, u[b] as int) > 0);
                lemma_used_where(input, g, u[b] as int);
                let cj = choose|cj: int|
                    0 <= cj < g.len() && #[trigger] is_at(input, cj, g[cj], u[b] as int);
                assert(store_of(input, cj, g[cj]) == Some(u[b]));
                assert(s.contains(u[b]));
                let j = choose|j: int| 0 <= j < s.len() && s[j] == u[b];
                assert(input.cheapest_price(ci, s[j] as int) == input.cheapest_price(
                    ci,
                    st as int,
                ));
                if j != p {
                    assert(p < j);
                    assert(positions[p] < positions[j]);
                    assert(0 <= pos[b] < cands.len() && 0 <= positions[j] < cands.len());
                    assert(cands[pos[b]] == u[b] && cands[positions[j]] == u[b]);
                    assert(pos[b] == positions[j]);
                    assert(i < b) by {
                        if b < i {
                            assert(pos[b] < pos[i]);
                        }
                    }
                    assert(false);
                }
                assert(u[b] == st);
            },
            None => {
                if let Some(b) = best_pos(input, ci, u) {
                    assert(store_count(input, g, u[b] as int) > 0);
                    lemma_used_where(input, g, u[b] as int);
                    let cj = choose|cj: int|
                        0 <= cj < g.len() && #[trigger] is_at(input, cj, g[cj], u[b] as int);
                    assert(store_of(input, cj, g[cj]) == Some(u[b]));
                    assert(s.contains(u[b]));
                    let j = choose|j: int| 0 <= j < s.len() && s[j] == u[b];
                    assert(input.cheapest_price(ci, s[j] as int) == u32::MAX);
                }
            },
        }
    }
    assert(h =~= g);
}

/// No more positions can be picked than there are.
proof fn lemma_picks_len(positions: Seq<int>, n: int)
    requires
        n >= 0,
        picks(positions, 0, n),
    ensures
        positions.len() <= n,
    decreases n,
{
    if positions.len() > 0 {
        let rest = positions.drop_last();
        assert(0 <= positions[positions.len() - 1] < n);
        assert forall|i: int| 0 <= i < rest.len() implies 0 <= #[trigger] rest[i] < n - 1 by {
            assert(0 <= positions[i] < positions[positions.len() - 1]);
        }
        assert forall|i: int, j: int| 0 <= i < j < rest.len() implies #[trigger] rest[i]
            < #[trigger] rest[j] by {
            assert(positions[i] < positions[j]);
        }
        lemma_picks_len(rest, n - 1);
    }
}

/// The best of all sets scores no higher than one of which something is bought.
proof fn lemma_lowest_of_used(
    input: &WizardInput,
    config: &WizardConfig,
    cands: Seq<usize>,
    positions: Seq<int>,
)
    requires
        input.wf(),
        known_stores(input, cands),
        cands.no_duplicates(),
        config.tolerance == 0,
        all_ship_paid(input, cands),
        all_below(input, 300000),
        picks(positions, 0, cands.len() as int),
        positions.len() <= EXHAUSTIVE_MAX_STORES,
        stores_used(input, greedy_choices(input, at_positions(cands, positions))) >= 1,
    ensures
        exhaustive_result(input, config, cands).len() > 0,
        subset_score(input, config, exhaustive_result(input, config, cands)[0]) <= subset_score(
            input,
            config,
            at_positions(cands, positions),
        ),
{
    let g = greedy_choices(input, at_positions(cands, positions));
    let u = used_cands(input, cands, g);
    lemma_greedy_of_used(input, cands, positions);
    lemma_used_cands(input, cands, g);
    assert(worth_buying(input)) by {
        assert forall|ci: int, oi: int|
            0 <= ci < input.n_cards() && 0 <= oi < input.options(ci).len() implies (
        #[trigger] input.options(ci)[oi]).price <= SKIP_PENALTY by {
            assert(input.options(ci)[oi].price < 300000);
        }
    }
    law_exhaustive_best(input, config, cands, u.len(), u);
    lemma_estimate(input, config, cands, g);
}

/// Without a store, every card is skipped and nothing ships.
proof fn lemma_skips_all(input: &WizardInput, g: Seq<Option<usize>>)
    requires
        input.wf(),
        valid_choices(input, g),
        stores_used(input, g) < 1,
    ensures
        forall|ci: int| 0 <= ci < g.len() ==> #[trigger] g[ci] is None,
        shipping_cost_of(input, g) == 0,
{
    assert forall|ci: int| 0 <= ci < g.len() implies #[trigger] g[ci] is None by {
        if g[ci] is Some {
            lemma_member(input, g, ci);
        }
    }
    let f = fees(input, g);
    assert forall|si: int| 0 <= si < f.len() implies #[trigger] f[si] == 0 by {
        if store_count(input, g, si) > 0 {
            lemma_used_where(input, g, si);
        }
        lemma_unused(input, g, si);
    }
    lemma_total_zero(f);
}

/// Buying the first card weighs less than skipping every card.
proof fn lemma_weight_saved(input: &WizardInput, g: Seq<Option<usize>>, h: Seq<Option<usize>>)
    requires
        input.wf(),
        all_below(input, 300000),
        valid_choices(input, h),
        g.len() == h.len(),
        h.len() > 0,
        h[0] is Some,
        forall|ci: int| 0 <= ci < g.len() ==> #[trigger] g[ci] is None,
    ensures
        total(weights(input, h)) + 200000 <= total(weights(input, g)),
{
    let wg = weights(input, g);
    let wh = weights(input, h);
    let saved = Seq::new(h.len(), |ci: int| SKIP_PENALTY - wh[ci]);
    assert forall|ci: int| 0 <= ci < h.len() implies 0 <= #[trigger] saved[ci] <= SKIP_PENALTY
        && wg[ci] == wh[ci] + saved[ci] && (h[ci] is Some ==> saved[ci] >= 200000) by {
        assert(g[ci] is None);
        assert(valid_choice(input, ci, h[ci]));
        if let Some(oi) = h[ci] {
            assert(input.options(ci)[oi as int].price < 300000);
        }
    }
    lemma_total_add(wg, wh, saved);
    lemma_total_bounds(saved, SKIP_PENALTY as int);
    assert(saved[0] <= total(saved));
}

/// The stores in use ask for no more than the highest shipping each.
proof fn lemma_paid_fees(input: &WizardInput, cands: Seq<usize>, h: Seq<Option<usize>>)
    requires
        input.wf(),
        valid_choices(input, h),
        buys_at(input, cands, h),
        all_ship_paid(input, cands),
    ensures
        shipping_cost_of(input, h) <= MAX_SHIPPING * stores_used(input, h),
{
    let f = fees(input, h);
    let flags = used_flags(input, h);
    let c = MAX_SHIPPING as int;
    let most = Seq::new(flags.len(), |si: int| c * flags[si]);
    assert forall|si: int| 0 <= si < f.len() implies f[si] <= #[trigger] most[si] by {
        assert(c * 0 == 0 && c * 1 == c) by (nonlinear_arith);
        if store_count(input, h, si) > 0 {
            lemma_used_where(input, h, si);
            let ci = choose|ci: int| 0 <= ci < h.len() && #[trigger] is_at(input, ci, h[ci], si);
            assert(store_of(input, ci, h[ci]) == Some(si as usize));
            assert(cands.contains(si as usize));
            let p = choose|p: int| 0 <= p < cands.len() && cands[p] == si as usize;
            assert(ships_paid(input, cands[p] as int));
            lemma_paid_fee(input, h, si);
        } else {
            lemma_unused(input, h, si);
        }
    }
    lemma_total_le(f, most);
    lemma_total_scaled(most, flags, c);
}

/// Without tolerance, where no candidate ships for free or asks for a minimum
/// order, every card is carried by a candidate and no listing costs 3000 kr, the
/// best solution of an exhaustive search scores no higher than buying every card
/// at the cheapest of any one to five of the candidates.
pub proof fn law_exhaustive_lowest(
    input: &WizardInput,
    config: &WizardConfig,
    cands: Seq<usize>,
    positions: Seq<int>,
)
    requires
        input.wf(),
        known_stores(input, cands),
        cands.no_duplicates(),
        config.tolerance == 0,
        all_ship_paid(input, cands),
        all_carried(input, cands),
        all_below(input, 300000),
        picks(positions, 0, cands.len() as int),
        1 <= positions.len() <= EXHAUSTIVE_MAX_STORES,
    ensures
        exhaustive_result(input, config, cands).len() > 0,
        subset_score(input, config, exhaustive_result(input, config, cands)[0]) <= subset_score(
            input,
            config,
            at_positions(cands, positions),
        ),
{
    let s = at_positions(cands, positions);
    let g = greedy_choices(input, s);
    let n = input.n_cards() as int;
    let result = exhaustive_result(input, config, cands);
    law_subsets_complete(cands, Seq::empty(), 0, positions);
    assert(Seq::<usize>::empty() + positions.map_values(|i: int| cands[i]) =~= s);
    law_exhaustive_best(input, config, cands, positions.len(), s);
    lemma_greedy_of_used(input, cands, positions);
    lemma_bounds(input, g);
    if stores_used(input, g) >= 1 {
        lemma_lowest_of_used(input, config, cands, positions);
    } else if n == 0 {
        assert(greedy_choices(input, result[0]) =~= g);
    } else {
        // Nothing is bought; some candidate sells the first card.
        assert(covered(input, cands, 0));
        let p = choose|p: int|
            0 <= p < cands.len() && input.cheapest(0, #[trigger] cands[p] as int) is Some;
        let one = seq![p];
        let t = at_positions(cands, one);
        let h = greedy_choices(input, t);
        assert(t =~= seq![cands[p]]);
        lemma_positions(input, cands, one);
        lemma_greedy_of_used(input, cands, one);
        lemma_greedy_choice(input, t, 0);
        lemma_best_pos(input, 0, t);
        assert(input.cheapest_price(0, t[0] as int) < u32::MAX);
        assert(h[0] is Some);
        assert(valid_choice(input, 0, h[0]));
        lemma_member(input, h, 0);
        lemma_bounds(input, h);
        lemma_lowest_of_used(input, config, cands, one);
        lemma_score_parts(input, config, h);
        lemma_score_parts(input, config, g);
        lemma_skips_all(input, g);
        lemma_weight_saved(input, g, h);
        lemma_paid_fees(input, cands, h);
        assert(size_base(1, config.strategy) <= 50000);
        assert(size_base(0, config.strategy) == 0);
    }
}

/// A dearer listing at the same store does not lower the score, where the store
/// never ships for free and asks for no minimum order.
proof fn lemma_dearer(
    input: &WizardInput,
    config: &WizardConfig,
    ch: Seq<Option<usize>>,
    ci: int,
    a: Option<usize>,
    b: Option<usize>,
    at: int,
)
    requires
        input.wf(),
        valid_choices(input, ch),
        0 <= ci < ch.len(),
        valid_choice(input, ci, a),
        valid_choice(input, ci, b),
        is_at(input, ci, a, at),
        is_at(input, ci, b, at),
        ships_paid(input, at),
        price_of(input, ci, a) <= price_of(input, ci, b),
    ensures
        score(input, config, ch.update(ci, a)) <= score(input, config, ch.update(ci, b)),
{
    let x = ch.update(ci, a);
    let y = ch.update(ci, b);
    assert(input.card_ok(ci));
    assert forall|c: int| 0 <= c < x.len() implies #[trigger] valid_choice(input, c, x[c])
        && valid_choice(input, c, y[c]) by {
        assert(valid_choice(input, c, ch[c]));
    }
    assert(valid_choices(input, x) && valid_choices(input, y));
    assert(skip_flags(x) =~= skip_flags(y));
    lemma_total_le(paid(input, x), paid(input, y));
    lemma_member(input, x, ci);
    lemma_member(input, y, ci);
    assert forall|si: int| 0 <= si < input.stores() implies fee_at(input, x, si) == #[trigger] fee_at(
        input,
        y,
        si,
    ) && store_count(input, x, si) == store_count(input, y, si) by {
        assert(bought_at(input, x, si) =~= bought_at(input, y, si));
        if si != at {
            assert(paid_at(input, x, si) =~= paid_at(input, y, si));
        }
    }
    assert(fees(input, x) =~= fees(input, y));
    assert forall|si: int| 0 <= si < input.stores() implies use_at(input, x, si) == #[trigger] use_at(
        input,
        y,
        si,
    ) by {
        assert(fee_at(input, x, si) == fee_at(input, y, si));
    }
    assert(used_flags(input, x) =~= used_flags(input, y));
}

/// Where no store ships for free or asks for a minimum order, a bar that no
/// neighbour goes below is one that no move of a single card goes below, to any
/// of its listings or to a skip.
pub proof fn law_any_single_move(
    input: &WizardInput,
    config: &WizardConfig,
    ch: Seq<Option<usize>>,
    bar: int,
    ci: int,
    new: Option<usize>,
)
    requires
        input.wf(),
        forall|si: int| 0 <= si < input.stores() ==> #[trigger] ships_paid(input, si),
        valid_choices(input, ch),
        floor_at(input, config, ch, bar),
        bar <= score(input, config, ch),
        0 <= ci < ch.len(),
        valid_choice(input, ci, new),
        new != ch[ci],
    ensures
        score(input, config, ch.update(ci, new)) >= bar,
{
    let cur = ch[ci];
    assert(ch.update(ci, cur) =~= ch);
    assert(valid_choice(input, ci, cur));
    assert(input.card_ok(ci));
    match new {
        None => {
            assert(plain_move(input, ch, ci, new));
        },
        Some(oi) => {
            let opt = input.options(ci)[oi as int];
            let at = opt.store_idx as int;
            assert(input.cell_ok(ci, at));
            assert(ships_paid(input, at));
            let low = if input.cheapest(ci, at) is Some {
                input.cheapest(ci, at)
            } else {
                new
            };
            assert(is_at(input, ci, new, at));
            if is_at(input, ci, cur, at) && price_of(input, ci, cur) <= price_of(input, ci, low) {
                lemma_dearer(input, config, ch, ci, cur, new, at);
            } else {
                assert(plain_move(input, ch, ci, low));
                lemma_dearer(input, config, ch, ci, low, new, at);
            }
        },
    }
}

/// One to five of the candidates, in their order.
pub open spec fn candidate_set(cands: Seq<usize>, s: Seq<usize>) -> bool {
    exists|positions: Seq<int>| #[trigger]
        picks(positions, 0, cands.len() as int) && 1 <= positions.len() <= EXHAUSTIVE_MAX_STORES
            && s == at_positions(cands, positions)
}

spec fn all_sets(cands: Seq<usize>, list: Seq<Seq<usize>>) -> bool {
    forall|i: int| 0 <= i < list.len() ==> candidate_set(cands, #[trigger] list[i])
}

/// The positions that a subset was picked from.
proof fn lemma_subset_positions(
    cands: Seq<usize>,
    prefix: Seq<usize>,
    k: nat,
    from: nat,
    s: Seq<usize>,
) -> (positions: Seq<int>)
    requires
        from <= cands.len(),
        subsets(cands, prefix, k, from).contains(s),
    ensures
        picks(positions, from as int, cands.len() as int),
        positions.len() == k,
        s == prefix + at_positions(cands, positions),
    decreases k, cands.len() - from,
{
    let all = subsets(cands, prefix, k, from);
    let at = choose|i: int| 0 <= i < all.len() && all[i] == s;
    if k == 0 {
        let none = Seq::<int>::empty();
        assert(s =~= prefix + at_positions(cands, none));
        none
    } else {
        let longer = prefix.push(cands[from as int]);
        let with = subsets(cands, longer, (k - 1) as nat, from + 1);
        let without = subsets(cands, prefix, k, from + 1);
        if at < with.len() {
            assert(with[at] == s);
            let rest = lemma_subset_positions(cands, longer, (k - 1) as nat, from + 1, s);
            let positions = seq![from as int] + rest;
            assert forall|i: int| 0 <= i < positions.len() implies from
                <= #[trigger] positions[i] < cands.len() by {
                if i > 0 {
                    assert(positions[i] == rest[i - 1]);
                }
            }
            assert forall|i: int, j: int| 0 <= i < j < positions.len() implies #[trigger] positions[i]
                < #[trigger] positions[j] by {
                assert(positions[j] == rest[j - 1]);
                if i > 0 {
                    assert(positions[i] == rest[i - 1]);
                }
            }
            assert(s =~= prefix + at_positions(cands, positions));
            positions
        } else {
            assert(without[at - with.len()] == s);
            let positions = lemma_subset_positions(cands, prefix, k, from + 1, s);
            assert forall|i: int| 0 <= i < positions.len() implies from
                <= #[trigger] positions[i] < cands.len() by {}
            positions
        }
    }
}

proof fn lemma_insert_sets(
    input: &WizardInput,
    config: &WizardConfig,
    cands: Seq<usize>,
    top: Seq<Seq<usize>>,
    s: Seq<usize>,
)
    requires
        all_sets(cands, top),
        candidate_set(cands, s),
    ensures
        all_sets(cands, insert_top(input, config, top, s)),
    decreases top.len(),
{
    if top.len() > 0 {
        let rest = top.drop_last();
        assert forall|i: int| 0 <= i < rest.len() implies candidate_set(cands, #[trigger] rest[i]) by {
            assert(candidate_set(cands, top[i]));
        }
        lemma_insert_sets(input, config, cands, rest, s);
        assert(candidate_set(cands, top[top.len() - 1]));
    }
}

proof fn lemma_offered_sets(
    input: &WizardInput,
    config: &WizardConfig,
    cands: Seq<usize>,
    list: Seq<Seq<usize>>,
)
    requires
        all_sets(cands, list),
    ensures
        all_sets(cands, offer_all(input, config, cands, Seq::empty(), list)),
    decreases list.len(),
{
    if list.len() > 0 {
        let rest = list.drop_last();
        assert forall|i: int| 0 <= i < rest.len() implies candidate_set(cands, #[trigger] rest[i]) by {
            assert(candidate_set(cands, list[i]));
        }
        lemma_offered_sets(input, config, cands, rest);
        let top = offer_all(input, config, cands, Seq::empty(), rest);
        assert(candidate_set(cands, list[list.len() - 1]));
        lemma_insert_sets(input, config, cands, top, list.last());
    }
}

proof fn lemma_sorted_sets(cands: Seq<usize>, list: Seq<Seq<usize>>, key: spec_fn(Seq<usize>) -> int)
    requires
        all_sets(cands, list),
    ensures
        all_sets(cands, stable_sorted(list, key)),
{
    let sorted = stable_sorted(list, key);
    law_stable_sorted(list, key);
    assert forall|i: int| 0 <= i < sorted.len() implies candidate_set(cands, #[trigger] sorted[i]) by {
        assert(sorted.contains(sorted[i]));
        let k = choose|k: int| 0 <= k < list.len() && list[k] == sorted[i];
        assert(candidate_set(cands, list[k]));
    }
}

proof fn lemma_gathered_sets(
    input: &WizardInput,
    config: &WizardConfig,
    cands: Seq<usize>,
    lists: Seq<Seq<Seq<usize>>>,
)
    requires
        forall|i: int| 0 <= i < lists.len() ==> all_sets(cands, #[trigger] lists[i]),
    ensures
        all_sets(cands, gather(input, config, lists)),
    decreases lists.len(),
{
    if lists.len() > 0 {
        let rest = lists.drop_last();
        assert forall|i: int| 0 <= i < rest.len() implies all_sets(cands, #[trigger] rest[i]) by {
            assert(all_sets(cands, lists[i]));
        }
        lemma_gathered_sets(input, config, cands, rest);
        let first = gather(input, config, rest);
        assert(all_sets(cands, lists[lists.len() - 1]));
        let both = first + lists.last();
        assert forall|i: int| 0 <= i < both.len() implies candidate_set(cands, #[trigger] both[i]) by {
            if i < first.len() {
                assert(candidate_set(cands, first[i]));
            } else {
                assert(candidate_set(cands, lists.last()[i - first.len()]));
            }
        }
        lemma_sorted_sets(cands, both, by_score(input, config));
    }
}

proof fn lemma_distinct_sets(input: &WizardInput, cands: Seq<usize>, list: Seq<Seq<usize>>)
    requires
        all_sets(cands, list),
    ensures
        all_sets(cands, distinct_choices(input, list)),
    decreases list.len(),
{
    if list.len() > 0 {
        let rest = list.drop_last();
        assert forall|i: int| 0 <= i < rest.len() implies candidate_set(cands, #[trigger] rest[i]) by {
            assert(candidate_set(cands, list[i]));
        }
        lemma_distinct_sets(input, cands, rest);
        assert(candidate_set(cands, list[list.len() - 1]));
    }
}

/// Subsets of one to five of the candidates.
proof fn lemma_subsets_sets(cands: Seq<usize>, k: nat)
    requires
        1 <= k <= EXHAUSTIVE_MAX_STORES,
    ensures
        all_sets(cands, subsets(cands, Seq::empty(), k, 0)),
        forall|a: nat|
            a < cands.len() ==> all_sets(
                cands,
                #[trigger] subsets(cands, seq![cands[a as int]], (k - 1) as nat, a + 1),
            ),
{
    let none = Seq::<usize>::empty();
    let all = subsets(cands, none, k, 0);
    assert forall|i: int| 0 <= i < all.len() implies candidate_set(cands, #[trigger] all[i]) by {
        assert(all.contains(all[i]));
        let positions = lemma_subset_positions(cands, none, k, 0, all[i]);
        assert(none + at_positions(cands, positions) =~= at_positions(cands, positions));
    }
    assert forall|a: nat| a < cands.len() implies all_sets(
        cands,
        #[trigger] subsets(cands, seq![cands[a as int]], (k - 1) as nat, a + 1),
    ) by {
        let first = seq![cands[a as int]];
        let some = subsets(cands, first, (k - 1) as nat, a + 1);
        assert forall|i: int| 0 <= i < some.len() implies candidate_set(cands, #[trigger] some[i]) by {
            assert(some.contains(some[i]));
            let rest = lemma_subset_positions(cands, first, (k - 1) as nat, a + 1, some[i]);
            let positions = seq![a as int] + rest;
            assert forall|j: int| 0 <= j < positions.len() implies 0
                <= #[trigger] positions[j] < cands.len() by {
                if j > 0 {
                    assert(positions[j] == rest[j - 1]);
                }
            }
            assert forall|x: int, y: int| 0 <= x < y < positions.len() implies #[trigger] positions[x]
                < #[trigger] positions[y] by {
                assert(positions[y] == rest[y - 1]);
                if x > 0 {
                    assert(positions[x] == rest[x - 1]);
                }
            }
            assert(first + at_positions(cands, rest) =~= at_positions(cands, positions));
            assert(picks(positions, 0, cands.len() as int));
        }
    }
}

proof fn lemma_large_sets(input: &WizardInput, config: &WizardConfig, cands: Seq<usize>, k: nat)
    requires
        1 <= k <= EXHAUSTIVE_MAX_STORES,
    ensures
        all_sets(cands, best_large(input, config, cands, k)),
{
    if cands.len() >= k {
        lemma_subsets_sets(cands, k);
        let lists = Seq::new(
            (cands.len() - k + 1) as nat,
            |a: int| best_from(input, config, cands, k, a as nat),
        );
        assert forall|a: int| 0 <= a < lists.len() implies all_sets(cands, #[trigger] lists[a]) by {
            let b = a as nat;
            lemma_offered_sets(
                input,
                config,
                cands,
                subsets(cands, seq![cands[b as int]], (k - 1) as nat, b + 1),
            );
        }
        lemma_gathered_sets(input, config, cands, lists);
    }
}

/// Every solution of an exhaustive search comes from one to five of the candidates.
pub proof fn law_exhaustive_sets(
    input: &WizardInput,
    config: &WizardConfig,
    cands: Seq<usize>,
    i: int,
)
    requires
        0 <= i < exhaustive_result(input, config, cands).len(),
    ensures
        candidate_set(cands, exhaustive_result(input, config, cands)[i]),
{
    let lists = Seq::new(
        if cands.len() < 3 {
            cands.len()
        } else {
            3
        },
        |i: int|
            offer_all(
                input,
                config,
                cands,
                Seq::empty(),
                subsets(cands, Seq::empty(), (i + 1) as nat, 0),
            ),
    );
    assert forall|j: int| 0 <= j < lists.len() implies all_sets(cands, #[trigger] lists[j]) by {
        lemma_subsets_sets(cands, (j + 1) as nat);
        lemma_offered_sets(input, config, cands, subsets(cands, Seq::empty(), (j + 1) as nat, 0));
    }
    lemma_gathered_sets(input, config, cands, lists);
    lemma_large_sets(input, config, cands, 4);
    lemma_large_sets(input, config, cands, 5);
    let b4 = best_large(input, config, cands, 4);
    let b5 = best_large(input, config, cands, 5);
    let b1 = best_small(input, config, cands);
    let all = b4 + b5 + b1;
    assert forall|j: int| 0 <= j < all.len() implies candidate_set(cands, #[trigger] all[j]) by {
        if j < b4.len() {
            assert(candidate_set(cands, b4[j]));
        } else if j < b4.len() + b5.len() {
            assert(candidate_set(cands, b5[j - b4.len()]));
        } else {
            assert(candidate_set(cands, b1[j - b4.len() - b5.len()]));
        }
    }
    lemma_sorted_sets(cands, all, by_score(input, config));
    let sorted = stable_sorted(all, by_score(input, config));
    lemma_distinct_sets(input, cands, sorted);
    let kept = distinct_choices(input, sorted);
    assert(candidate_set(cands, kept[i]));
}

} // verus!
