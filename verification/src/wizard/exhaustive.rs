//! Exhaustive search over small sets of stores.

use crate::order::{
    ascending, by_rank, law_stable_sorted, lemma_sorted_map, sort_by_rank, stable_sorted, Ranked,
};
use crate::parallel::map_indices;
use crate::sums::{lemma_total_le, lemma_total_take, lemma_total_update, lemma_total_zero, total};
use crate::wizard::combos::{
    binomial, law_subsets_complete, lemma_binomial_step, lemma_subsets_first, lemma_subsets_members,
    lemma_subsets_none, subsets,
};
use crate::wizard::model::{
    Strategy, WizardConfig, WizardInput, MAX_TOTAL, PRICE_WEIGHT, SKIP_PENALTY, STORE_PENALTY,
};
use crate::wizard::score::{
    bought_at, compute_raw_score, fee_at, fees, is_at, lemma_bounds, paid, paid_at, price_of, score,
    skip_flags, store_count, store_of, store_total, use_at, used_flags, valid_choice, valid_choices,
};
use crate::wizard::scored::{lemma_fitted_valid, lemma_score_bound};
use crate::wizard::solution::{solution_from_choices, WizardSolution};
use std::sync::atomic::AtomicU64;
use vstd::prelude::*;

verus! {

/// Where in `subset` the card is cheapest: the first position with the lowest
/// price, if any of the stores carries the card.
pub open spec fn best_pos(input: &WizardInput, ci: int, subset: Seq<usize>) -> Option<int>
    decreases subset.len(),
{
    if subset.len() == 0 {
        None
    } else {
        let before = best_pos(input, ci, subset.drop_last());
        let price = input.cheapest_price(ci, subset.last() as int);
        let bar = match before {
            Some(p) => input.cheapest_price(ci, subset[p] as int),
            None => u32::MAX,
        };
        if price < bar {
            Some(subset.len() - 1)
        } else {
            before
        }
    }
}

/// The choice for one card: its cheapest listing among the stores of `subset`,
/// or a skip if none of them carries it.
pub open spec fn greedy_choice(input: &WizardInput, subset: Seq<usize>, ci: int) -> Option<usize> {
    match best_pos(input, ci, subset) {
        Some(p) => input.cheapest(ci, subset[p] as int),
        None => None,
    }
}

/// Every card at the cheapest store of `subset` that carries it.
pub open spec fn greedy_choices(input: &WizardInput, subset: Seq<usize>) -> Seq<Option<usize>> {
    Seq::new(input.n_cards(), |ci: int| greedy_choice(input, subset, ci))
}

/// The score of buying from the stores of `subset` only.
pub open spec fn subset_score(
    input: &WizardInput,
    config: &WizardConfig,
    subset: Seq<usize>,
) -> int {
    score(input, config, greedy_choices(input, subset))
}

/// All stores of the list exist.
pub open spec fn known_stores(input: &WizardInput, subset: Seq<usize>) -> bool {
    forall|p: int| 0 <= p < subset.len() ==> #[trigger] subset[p] < input.stores()
}

/// What `best_pos` means.
pub proof fn lemma_best_pos(input: &WizardInput, ci: int, subset: Seq<usize>)
    ensures
        match best_pos(input, ci, subset) {
            Some(b) => {
                let price = input.cheapest_price(ci, subset[b] as int);
                &&& 0 <= b < subset.len()
                &&& price < u32::MAX
                &&& forall|p: int|
                    0 <= p < subset.len() ==> price <= input.cheapest_price(
                        ci,
                        #[trigger] subset[p] as int,
                    )
                &&& forall|p: int|
                    0 <= p < b ==> price < input.cheapest_price(ci, #[trigger] subset[p] as int)
            },
            None => forall|p: int|
                0 <= p < subset.len() ==> input.cheapest_price(ci, #[trigger] subset[p] as int)
                    == u32::MAX,
        },
    decreases subset.len(),
{
    if subset.len() > 0 {
        let d = subset.drop_last();
        lemma_best_pos(input, ci, d);
        assert forall|p: int| 0 <= p < subset.len() - 1 implies #[trigger] subset[p] == d[p] by {}
    }
}

/// A greedy choice is a listing at the store that it was picked for.
pub proof fn lemma_greedy_choice(input: &WizardInput, subset: Seq<usize>, ci: int)
    requires
        input.wf(),
        known_stores(input, subset),
        0 <= ci < input.n_cards(),
    ensures
        valid_choice(input, ci, greedy_choice(input, subset, ci)),
        match best_pos(input, ci, subset) {
            Some(p) => {
                let choice = greedy_choice(input, subset, ci);
                &&& 0 <= p < subset.len()
                &&& choice is Some
                &&& store_of(input, ci, choice) == Some(subset[p])
                &&& price_of(input, ci, choice) == input.cheapest_price(ci, subset[p] as int)
            },
            None => greedy_choice(input, subset, ci) is None,
        },
{
    lemma_best_pos(input, ci, subset);
    if let Some(p) = best_pos(input, ci, subset) {
        assert(subset[p] < input.stores());
        assert(input.cell_ok(ci, subset[p] as int));
    }
}

/// Greedy choices are valid.
pub proof fn lemma_greedy_valid(input: &WizardInput, subset: Seq<usize>)
    requires
        input.wf(),
        known_stores(input, subset),
    ensures
        valid_choices(input, greedy_choices(input, subset)),
{
    let ch = greedy_choices(input, subset);
    assert forall|ci: int| 0 <= ci < ch.len() implies #[trigger] valid_choice(input, ci, ch[ci]) by {
        lemma_greedy_choice(input, subset, ci);
    }
}

/// Position `p` is the first one that holds its store.
pub open spec fn first_at(subset: Seq<usize>, p: int) -> bool {
    forall|q: int| 0 <= q < p ==> #[trigger] subset[q] != subset[p]
}

/// What each card costs at position `p` of the subset.
pub open spec fn pos_paid(input: &WizardInput, subset: Seq<usize>, p: int) -> Seq<int> {
    Seq::new(
        input.n_cards(),
        |ci: int|
            if best_pos(input, ci, subset) == Some(p) {
                price_of(input, ci, greedy_choice(input, subset, ci))
            } else {
                0
            },
    )
}

/// One for each card that is bought at position `p` of the subset.
pub open spec fn pos_bought(input: &WizardInput, subset: Seq<usize>, p: int) -> Seq<int> {
    Seq::new(
        input.n_cards(),
        |ci: int|
            if best_pos(input, ci, subset) == Some(p) {
                1
            } else {
                0int
            },
    )
}

/// Per position the totals are those of its store; a repeated store counts once.
proof fn lemma_pos_totals(input: &WizardInput, subset: Seq<usize>, p: int)
    requires
        input.wf(),
        known_stores(input, subset),
        0 <= p < subset.len(),
    ensures
        first_at(subset, p) ==> total(pos_paid(input, subset, p)) == store_total(
            input,
            greedy_choices(input, subset),
            subset[p] as int,
        ),
        first_at(subset, p) ==> total(pos_bought(input, subset, p)) == store_count(
            input,
            greedy_choices(input, subset),
            subset[p] as int,
        ),
        !first_at(subset, p) ==> total(pos_paid(input, subset, p)) == 0 && total(
            pos_bought(input, subset, p),
        ) == 0,
{
    let ch = greedy_choices(input, subset);
    let si = subset[p] as int;
    if first_at(subset, p) {
        assert forall|ci: int| 0 <= ci < input.n_cards() implies (best_pos(input, ci, subset)
            == Some(p)) == #[trigger] is_at(input, ci, ch[ci], si) by {
            lemma_greedy_choice(input, subset, ci);
            lemma_best_pos(input, ci, subset);
            if let Some(b) = best_pos(input, ci, subset) {
                if subset[b] == subset[p] && b > p {
                    assert(input.cheapest_price(ci, subset[p] as int) > input.cheapest_price(
                        ci,
                        subset[b] as int,
                    ));
                }
            }
        }
        assert forall|ci: int| 0 <= ci < input.n_cards() implies #[trigger] pos_paid(
            input,
            subset,
            p,
        )[ci] == paid_at(input, ch, si)[ci] && pos_bought(input, subset, p)[ci] == bought_at(
            input,
            ch,
            si,
        )[ci] by {
            assert((best_pos(input, ci, subset) == Some(p)) == is_at(input, ci, ch[ci], si));
        }
        assert(pos_paid(input, subset, p) =~= paid_at(input, ch, si));
        assert forall|ci: int| 0 <= ci < input.n_cards() implies #[trigger] pos_bought(
            input,
            subset,
            p,
        )[ci] == bought_at(input, ch, si)[ci] by {
            assert(pos_paid(input, subset, p)[ci] == paid_at(input, ch, si)[ci]);
        }
        assert(pos_bought(input, subset, p) =~= bought_at(input, ch, si));
    } else {
        let q = choose|q: int| 0 <= q < p && #[trigger] subset[q] == subset[p];
        assert forall|ci: int| 0 <= ci < input.n_cards() implies best_pos(input, ci, subset)
            != Some(p) by {
            lemma_best_pos(input, ci, subset);
            assert(subset[q] == subset[p]);
        }
        lemma_total_zero(pos_paid(input, subset, p));
        lemma_total_zero(pos_bought(input, subset, p));
    }
}

/// `vals` restricted to the stores among the first `k` positions of the subset.
spec fn masked(vals: Seq<int>, subset: Seq<usize>, k: int) -> Seq<int> {
    Seq::new(
        vals.len(),
        |si: int|
            if exists|q: int| 0 <= q < k && #[trigger] subset[q] == si {
                vals[si]
            } else {
                0
            },
    )
}

/// Adding position `k` adds its store's value, unless the store was there before.
proof fn lemma_masked_step(vals: Seq<int>, subset: Seq<usize>, k: int)
    requires
        0 <= k < subset.len(),
        subset[k] < vals.len(),
    ensures
        total(masked(vals, subset, k + 1)) == total(masked(vals, subset, k)) + (if first_at(
            subset,
            k,
        ) {
            vals[subset[k] as int]
        } else {
            0
        }),
{
    let a = masked(vals, subset, k);
    let b = masked(vals, subset, k + 1);
    let s = subset[k] as int;
    assert forall|si: int| 0 <= si < vals.len() && si != s implies #[trigger] b[si] == a[si] by {
        if exists|q: int| 0 <= q < k + 1 && #[trigger] subset[q] == si {
            let q = choose|q: int| 0 <= q < k + 1 && #[trigger] subset[q] == si;
            assert(0 <= q < k && subset[q] == si);
        }
    }
    assert(b[s] == vals[s]) by {
        assert(subset[k] == s);
    }
    if first_at(subset, k) {
        assert(a[s] == 0);
        assert(b =~= a.update(s, vals[s]));
        lemma_total_update(a, s, vals[s]);
    } else {
        let q = choose|q: int| 0 <= q < k && #[trigger] subset[q] == subset[k];
        assert(0 <= q < k && subset[q] == s);
        assert(a[s] == vals[s]);
        assert(b =~= a);
    }
}

/// Partial sums of shipping and of used stores stay small.
proof fn lemma_masked_bound(input: &WizardInput, subset: Seq<usize>, k: int)
    requires
        input.wf(),
        known_stores(input, subset),
    ensures
        total(masked(fees(input, greedy_choices(input, subset)), subset, k)) <= SKIP_PENALTY
            * 0x1_0000_0000,
        total(masked(used_flags(input, greedy_choices(input, subset)), subset, k))
            <= input.stores(),
{
    let ch = greedy_choices(input, subset);
    lemma_greedy_valid(input, subset);
    lemma_bounds(input, ch);
    let f = fees(input, ch);
    let u = used_flags(input, ch);
    assert forall|si: int| 0 <= si < f.len() implies masked(f, subset, k)[si] <= #[trigger] f[si] by {
        assert(input.shipping_bases@[si] + input.shipping_card_surcharges@[si] <= SKIP_PENALTY);
    }
    lemma_total_le(masked(f, subset, k), f);
    lemma_total_le(masked(u, subset, k), u);
    let n = input.stores();
    assert(SKIP_PENALTY * n <= SKIP_PENALTY * 0x1_0000_0000) by (nonlinear_arith)
        requires
            n <= u32::MAX,
    ;
}

/// With every position counted, nothing is left out of `vals` that is zero elsewhere.
proof fn lemma_masked_all(vals: Seq<int>, subset: Seq<usize>)
    requires
        forall|si: int|
            0 <= si < vals.len() && (forall|q: int|
                0 <= q < subset.len() ==> #[trigger] subset[q] != si) ==> #[trigger] vals[si] == 0,
    ensures
        masked(vals, subset, subset.len() as int) == vals,
{
    let m = masked(vals, subset, subset.len() as int);
    assert forall|si: int| 0 <= si < vals.len() implies #[trigger] m[si] == vals[si] by {
        if !(exists|q: int| 0 <= q < subset.len() && #[trigger] subset[q] == si) {
            assert(forall|q: int| 0 <= q < subset.len() ==> #[trigger] subset[q] != si);
            assert(vals[si] == 0);
        }
    }
    assert(m =~= vals);
}

/// Stores outside the subset are not used.
proof fn lemma_outside(input: &WizardInput, subset: Seq<usize>, si: int)
    requires
        input.wf(),
        known_stores(input, subset),
        0 <= si < input.stores(),
        forall|q: int| 0 <= q < subset.len() ==> #[trigger] subset[q] != si,
    ensures
        fee_at(input, greedy_choices(input, subset), si) == 0,
        use_at(input, greedy_choices(input, subset), si) == 0,
{
    let ch = greedy_choices(input, subset);
    assert forall|ci: int| 0 <= ci < ch.len() implies !#[trigger] is_at(input, ci, ch[ci], si) by {
        lemma_greedy_choice(input, subset, ci);
    }
    assert forall|ci: int| 0 <= ci < ch.len() implies #[trigger] paid_at(input, ch, si)[ci] == 0 by {
        assert(!is_at(input, ci, ch[ci], si));
    }
    assert forall|ci: int| 0 <= ci < ch.len() implies #[trigger] bought_at(input, ch, si)[ci]
        == 0 by {
        assert(!is_at(input, ci, ch[ci], si));
    }
    lemma_total_zero(paid_at(input, ch, si));
    lemma_total_zero(bought_at(input, ch, si));
}

/// The position at which card `ci` is cheapest, and the price there.
fn find_best(input: &WizardInput, ci: usize, subset: &Vec<usize>) -> (best: Option<(usize, u32)>)
    requires
        input.wf(),
        known_stores(input, subset@),
        ci < input.n_cards(),
    ensures
        match best_pos(input, ci as int, subset@) {
            Some(p) => best matches Some((q, price)) && q == p && price == input.cheapest_price(
                ci as int,
                subset@[p] as int,
            ),
            None => best is None,
        },
{
    let mut best: Option<(usize, u32)> = None;
    let mut pos: usize = 0;
    assert(subset@.take(0) =~= Seq::empty());
    while pos < subset.len()
        invariant
            input.wf(),
            known_stores(input, subset@),
            ci < input.n_cards(),
            pos <= subset@.len(),
            match best_pos(input, ci as int, subset@.take(pos as int)) {
                Some(p) => best matches Some((q, price)) && q == p && q < pos && price
                    == input.cheapest_price(ci as int, subset@[p] as int),
                None => best is None,
            },
        decreases subset@.len() - pos,
    {
        proof {
            let t = subset@.take(pos + 1);
            assert(t.drop_last() =~= subset@.take(pos as int));
            assert(t.last() == subset@[pos as int]);
            assert(subset@[pos as int] < input.stores());
        }
        let price: u32 = input.cell_price(ci, subset[pos]);
        let bar: u32 = match best {
            Some((_, p)) => p,
            None => u32::MAX,
        };
        if price < bar {
            best = Some((pos, price));
        }
        pos += 1;
    }
    assert(subset@.take(pos as int) =~= subset@);
    best
}

/// Assigns each card to the cheapest store of the subset that carries it, or
/// skips it; returns the choices and their score.
pub fn score_store_subset(
    input: &WizardInput,
    config: &WizardConfig,
    subset: &Vec<usize>,
) -> (result: (Vec<Option<usize>>, u64))
    requires
        input.wf(),
        known_stores(input, subset@),
    ensures
        result.0@ == greedy_choices(input, subset@),
        result.1 == subset_score(input, config, subset@),
{
    let n: usize = input.cards.len();
    let k: usize = subset.len();
    let ghost ch = greedy_choices(input, subset@);
    let mut choices: Vec<Option<usize>> = Vec::new();
    let mut totals: Vec<u64> = vec![0; k];
    let mut counts: Vec<usize> = vec![0; k];
    let mut card_total: u64 = 0;
    let mut num_skipped: usize = 0;
    let mut ci: usize = 0;
    proof {
        lemma_greedy_valid(input, subset@);
        lemma_bounds(input, ch);
        assert(paid(input, ch).take(0) =~= Seq::empty());
        assert(skip_flags(ch).take(0) =~= Seq::empty());
        assert forall|p: int| 0 <= p < k implies total(
            #[trigger] pos_paid(input, subset@, p).take(0),
        ) == 0 by {
            assert(pos_paid(input, subset@, p).take(0) =~= Seq::empty());
        }
        assert forall|p: int| 0 <= p < k implies total(
            #[trigger] pos_bought(input, subset@, p).take(0),
        ) == 0 by {
            assert(pos_bought(input, subset@, p).take(0) =~= Seq::empty());
        }
    }
    while ci < n
        invariant
            input.wf(),
            known_stores(input, subset@),
            n == input.n_cards(),
            k == subset@.len(),
            ch == greedy_choices(input, subset@),
            ci <= n,
            choices@ == ch.take(ci as int),
            totals@.len() == k,
            counts@.len() == k,
            card_total == total(paid(input, ch).take(ci as int)),
            card_total <= u32::MAX * ci,
            num_skipped == total(skip_flags(ch).take(ci as int)),
            num_skipped <= ci,
            forall|p: int|
                0 <= p < k ==> (#[trigger] totals@[p]) == total(
                    pos_paid(input, subset@, p).take(ci as int),
                ) && totals@[p] <= u32::MAX * ci,
            forall|p: int|
                0 <= p < k ==> (#[trigger] counts@[p]) == total(
                    pos_bought(input, subset@, p).take(ci as int),
                ) && counts@[p] <= ci,
        decreases n - ci,
    {
        proof {
            lemma_greedy_choice(input, subset@, ci as int);
            lemma_best_pos(input, ci as int, subset@);
            lemma_total_take(paid(input, ch), ci as int);
            lemma_total_take(skip_flags(ch), ci as int);
            assert forall|p: int| 0 <= p < k implies total(
                #[trigger] pos_paid(input, subset@, p).take(ci + 1),
            ) == total(pos_paid(input, subset@, p).take(ci as int)) + pos_paid(
                input,
                subset@,
                p,
            )[ci as int] by {
                lemma_total_take(pos_paid(input, subset@, p), ci as int);
            }
            assert forall|p: int| 0 <= p < k implies total(
                #[trigger] pos_bought(input, subset@, p).take(ci + 1),
            ) == total(pos_bought(input, subset@, p).take(ci as int)) + pos_bought(
                input,
                subset@,
                p,
            )[ci as int] by {
                lemma_total_take(pos_bought(input, subset@, p), ci as int);
            }
            assert(ch.take(ci + 1) =~= ch.take(ci as int).push(ch[ci as int]));
            assert(u32::MAX * (ci + 1) <= u32::MAX * 0x1_0000_0000) by (nonlinear_arith)
                requires
                    ci < u32::MAX,
            ;
        }
        match find_best(input, ci, subset) {
            Some((pos, price)) => {
                let si: usize = subset[pos];
                let choice = input.cheapest_at(ci, si);
                match choice {
                    Some((oi, _)) => {
                        choices.push(Some(oi));
                    },
                    None => {
                        choices.push(None);
                    },
                }
                assert(totals@[pos as int] <= u32::MAX * ci);
                assert(counts@[pos as int] <= ci);
                totals[pos] = totals[pos] + price as u64;
                counts[pos] = counts[pos] + 1;
                card_total = card_total + price as u64;
            },
            None => {
                choices.push(None);
                num_skipped += 1;
            },
        }
        ci += 1;
    }
    proof {
        assert(ch.take(n as int) =~= ch);
        assert(paid(input, ch).take(n as int) =~= paid(input, ch));
        assert(skip_flags(ch).take(n as int) =~= skip_flags(ch));
    }
    let ghost fee_vals = fees(input, ch);
    let ghost use_vals = used_flags(input, ch);
    let mut shipping: u64 = 0;
    let mut num_stores: usize = 0;
    let mut pos: usize = 0;
    proof {
        assert forall|si: int| 0 <= si < fee_vals.len() implies 0 <= #[trigger] fee_vals[si]
            <= SKIP_PENALTY by {
            assert(input.shipping_bases@[si] + input.shipping_card_surcharges@[si]
                <= SKIP_PENALTY);
        }
        lemma_total_zero(masked(fee_vals, subset@, 0));
        lemma_total_zero(masked(use_vals, subset@, 0));
    }
    while pos < k
        invariant
            input.wf(),
            known_stores(input, subset@),
            n == input.n_cards(),
            k == subset@.len(),
            ch == greedy_choices(input, subset@),
            fee_vals == fees(input, ch),
            use_vals == used_flags(input, ch),
            totals@.len() == k,
            counts@.len() == k,
            pos <= k,
            forall|p: int|
                0 <= p < k ==> (#[trigger] totals@[p]) == total(
                    pos_paid(input, subset@, p).take(n as int),
                ),
            forall|p: int|
                0 <= p < k ==> (#[trigger] counts@[p]) == total(
                    pos_bought(input, subset@, p).take(n as int),
                ),
            shipping == total(masked(fee_vals, subset@, pos as int)),
            num_stores == total(masked(use_vals, subset@, pos as int)),
        decreases k - pos,
    {
        let ghost p = pos as int;
        proof {
            assert(subset@[p] < input.stores());
            assert(pos_paid(input, subset@, p).take(n as int) =~= pos_paid(input, subset@, p));
            assert(pos_bought(input, subset@, p).take(n as int) =~= pos_bought(input, subset@, p));
            lemma_pos_totals(input, subset@, p);
            lemma_masked_step(fee_vals, subset@, p);
            lemma_masked_step(use_vals, subset@, p);
            lemma_masked_bound(input, subset@, p);
            lemma_masked_bound(input, subset@, p + 1);
            assert(totals@[p] == total(pos_paid(input, subset@, p)));
            assert(counts@[p] == total(pos_bought(input, subset@, p)));
        }
        let fee = input.shipping_cost(subset[pos], totals[pos], counts[pos]);
        shipping = shipping + fee;
        if counts[pos] > 0 {
            num_stores = num_stores + 1;
        }
        pos += 1;
    }
    proof {
        assert forall|si: int|
            0 <= si < input.stores() && (forall|q: int|
                0 <= q < subset@.len() ==> #[trigger] subset@[q] != si) implies
            #[trigger] fee_vals[si] == 0 by {
            lemma_outside(input, subset@, si);
        }
        assert forall|si: int|
            0 <= si < input.stores() && (forall|q: int|
                0 <= q < subset@.len() ==> #[trigger] subset@[q] != si) implies
            #[trigger] use_vals[si] == 0 by {
            lemma_outside(input, subset@, si);
        }
        lemma_masked_all(fee_vals, subset@);
        lemma_masked_all(use_vals, subset@);
        lemma_bounds(input, ch);
        lemma_score_bound(input, config, ch);
    }
    let score = compute_raw_score(
        card_total + shipping,
        num_stores,
        num_skipped,
        config.tolerance,
        config.strategy,
    );
    (choices, score)
}

/// Most stores that a tried combination holds.
pub const EXHAUSTIVE_MAX_STORES: usize = 5;

/// How many solutions are kept.
pub const TOP_N: usize = 3;

/// The part of a score that depends only on the number of stores.
pub open spec fn size_base(k: int, strategy: Strategy) -> int {
    match strategy {
        Strategy::Simplest => k * PRICE_WEIGHT,
        Strategy::Cheapest => if k > 1 {
            (k - 1) * STORE_PENALTY
        } else {
            0
        },
    }
}

/// The part of a score that depends only on the number of stores.
pub fn k_base_score(k: usize, strategy: Strategy) -> (base: u64)
    requires
        size_base(k as int, strategy) <= u64::MAX,
    ensures
        base == size_base(k as int, strategy),
{
    match strategy {
        Strategy::Simplest => k as u64 * PRICE_WEIGHT,
        Strategy::Cheapest => {
            if k > 1 {
                (k - 1) as u64 * STORE_PENALTY
            } else {
                0
            }
        },
    }
}

/// The lowest price of each card among the candidates; nothing where none carries it.
pub open spec fn lowest_prices(input: &WizardInput, cands: Seq<usize>) -> Seq<int> {
    Seq::new(
        input.n_cards(),
        |ci: int|
            match best_pos(input, ci, cands) {
                Some(p) => input.cheapest_price(ci, cands[p] as int) as int,
                None => 0,
            },
    )
}

/// The lowest base shipping among the candidates.
pub open spec fn lowest_base(input: &WizardInput, cands: Seq<usize>) -> int
    decreases cands.len(),
{
    if cands.len() == 0 {
        0
    } else {
        let last = input.shipping_bases@[cands.last() as int] as int;
        if cands.len() == 1 || last < lowest_base(input, cands.drop_last()) {
            last
        } else {
            lowest_base(input, cands.drop_last())
        }
    }
}

/// What a set of `k` stores is taken to cost at least: every card at its lowest
/// price, the lowest base shipping once, and the weight of the stores.
pub open spec fn estimate(
    input: &WizardInput,
    config: &WizardConfig,
    cands: Seq<usize>,
    k: int,
) -> int {
    total(lowest_prices(input, cands)) + lowest_base(input, cands) + size_base(k, config.strategy)
}

/// `top` with `subset` put in front of the entries that do not score lower.
pub open spec fn insert_top(
    input: &WizardInput,
    config: &WizardConfig,
    top: Seq<Seq<usize>>,
    subset: Seq<usize>,
) -> Seq<Seq<usize>>
    decreases top.len(),
{
    if top.len() == 0 || subset_score(input, config, top.last()) < subset_score(
        input,
        config,
        subset,
    ) {
        top.push(subset)
    } else {
        insert_top(input, config, top.drop_last(), subset).push(top.last())
    }
}

/// The first `TOP_N` entries.
pub open spec fn head<A>(s: Seq<A>) -> Seq<A> {
    if s.len() <= TOP_N {
        s
    } else {
        s.take(TOP_N as int)
    }
}

/// The best list after `subset` was tried.  Once the list is full, a subset whose
/// estimate does not lie below the list's worst score is passed over.
pub open spec fn offer(
    input: &WizardInput,
    config: &WizardConfig,
    cands: Seq<usize>,
    top: Seq<Seq<usize>>,
    subset: Seq<usize>,
) -> Seq<Seq<usize>> {
    if top.len() >= TOP_N && estimate(input, config, cands, subset.len() as int) >= subset_score(
        input,
        config,
        top.last(),
    ) {
        top
    } else {
        head(insert_top(input, config, top, subset))
    }
}

/// The best list after all subsets of `list` were tried in order.
pub open spec fn offer_all(
    input: &WizardInput,
    config: &WizardConfig,
    cands: Seq<usize>,
    top: Seq<Seq<usize>>,
    list: Seq<Seq<usize>>,
) -> Seq<Seq<usize>>
    decreases list.len(),
{
    if list.len() == 0 {
        top
    } else {
        offer(input, config, cands, offer_all(input, config, cands, top, list.drop_last()), list.last())
    }
}

/// The score of a subset as a sorting key.
pub open spec fn by_score(input: &WizardInput, config: &WizardConfig) -> spec_fn(Seq<usize>) -> int {
    |s: Seq<usize>| subset_score(input, config, s)
}

/// The best of several best lists: earlier lists come first among equals.
pub open spec fn gather(
    input: &WizardInput,
    config: &WizardConfig,
    lists: Seq<Seq<Seq<usize>>>,
) -> Seq<Seq<usize>>
    decreases lists.len(),
{
    if lists.len() == 0 {
        Seq::empty()
    } else {
        head(
            stable_sorted(
                gather(input, config, lists.drop_last()) + lists.last(),
                by_score(input, config),
            ),
        )
    }
}

/// The best list of the `k`-store sets whose first store is candidate `a`.
pub open spec fn best_from(
    input: &WizardInput,
    config: &WizardConfig,
    cands: Seq<usize>,
    k: nat,
    a: nat,
) -> Seq<Seq<usize>> {
    offer_all(
        input,
        config,
        cands,
        Seq::empty(),
        subsets(cands, seq![cands[a as int]], (k - 1) as nat, a + 1),
    )
}

/// The best list of the `k`-store sets, searched first store by first store.
pub open spec fn best_large(
    input: &WizardInput,
    config: &WizardConfig,
    cands: Seq<usize>,
    k: nat,
) -> Seq<Seq<usize>> {
    if cands.len() < k {
        Seq::empty()
    } else {
        gather(
            input,
            config,
            Seq::new(
                (cands.len() - k + 1) as nat,
                |a: int| best_from(input, config, cands, k, a as nat),
            ),
        )
    }
}

/// The best list of the sets of up to three stores, searched size by size.
pub open spec fn best_small(
    input: &WizardInput,
    config: &WizardConfig,
    cands: Seq<usize>,
) -> Seq<Seq<usize>> {
    gather(
        input,
        config,
        Seq::new(
            if cands.len() < 3 {
                cands.len()
            } else {
                3
            },
            |i: int|
                offer_all(
                    input,
                    config,
                    cands,
                    Seq::empty(),
                    subsets(cands, Seq::empty(), (i + 1) as nat, 0),
                ),
        ),
    )
}

/// The subsets that assign the cards in a way that no earlier one does.
pub open spec fn distinct_choices(input: &WizardInput, s: Seq<Seq<usize>>) -> Seq<Seq<usize>>
    decreases s.len(),
{
    if s.len() == 0 {
        s
    } else {
        let kept = distinct_choices(input, s.drop_last());
        if exists|i: int|
            0 <= i < kept.len() && greedy_choices(input, #[trigger] kept[i]) == greedy_choices(
                input,
                s.last(),
            ) {
            kept
        } else {
            kept.push(s.last())
        }
    }
}

/// The store sets behind the solutions of an exhaustive search, best first.
pub open spec fn exhaustive_result(
    input: &WizardInput,
    config: &WizardConfig,
    cands: Seq<usize>,
) -> Seq<Seq<usize>> {
    head(
        distinct_choices(
            input,
            stable_sorted(
                best_large(input, config, cands, 4) + best_large(input, config, cands, 5)
                    + best_small(input, config, cands),
                by_score(input, config),
            ),
        ),
    )
}

/// A store set with its assignment and score.
pub struct Found {
    pub subset: Vec<usize>,
    pub choices: Vec<Option<usize>>,
    pub score: u64,
}

impl Ranked for Found {
    open spec fn rank(&self) -> int {
        self.score as int
    }

    fn get_rank(&self) -> (r: u64) {
        self.score
    }
}

impl Found {
    pub open spec fn wf(&self, input: &WizardInput, config: &WizardConfig) -> bool {
        &&& known_stores(input, self.subset@)
        &&& self.choices@ == greedy_choices(input, self.subset@)
        &&& self.score == subset_score(input, config, self.subset@)
    }
}

pub open spec fn all_wf(input: &WizardInput, config: &WizardConfig, v: Seq<Found>) -> bool {
    forall|i: int| 0 <= i < v.len() ==> (#[trigger] v[i]).wf(input, config)
}

/// The store sets of a list of findings.
pub open spec fn sets(v: Seq<Found>) -> Seq<Seq<usize>> {
    v.map_values(|f: Found| f.subset@)
}

/// Tries subsets and keeps the best.
pub struct SubsetEvaluator {
    pub cheapest_sum: u64,
    pub least_base: u64,
    /// Best findings, lowest score first.
    pub local_best: Vec<Found>,
}

fn tick(counter: &AtomicU64) {
    counter.fetch_add(1, std::sync::atomic::Ordering::Relaxed);
}

impl SubsetEvaluator {
    pub open spec fn wf(
        &self,
        input: &WizardInput,
        config: &WizardConfig,
        cands: Seq<usize>,
    ) -> bool {
        &&& self.cheapest_sum == total(lowest_prices(input, cands))
        &&& self.least_base == lowest_base(input, cands)
        &&& self.cheapest_sum <= MAX_TOTAL
        &&& self.least_base <= u32::MAX
        &&& all_wf(input, config, self.local_best@)
        &&& self.local_best@.len() <= TOP_N
    }

    fn new(cheapest_sum: u64, least_base: u64) -> (e: Self)
        ensures
            e.cheapest_sum == cheapest_sum,
            e.least_base == least_base,
            e.local_best@.len() == 0,
    {
        SubsetEvaluator { cheapest_sum, least_base, local_best: Vec::new() }
    }

    /// The score that a new finding has to beat, once the list is full.
    fn worst_best_score(&self) -> (worst: u64)
        ensures
            worst == if self.local_best@.len() >= TOP_N {
                self.local_best@.last().score
            } else {
                u64::MAX
            },
    {
        if self.local_best.len() >= TOP_N {
            self.local_best[self.local_best.len() - 1].score
        } else {
            u64::MAX
        }
    }

    /// Tries one subset; `progress` counts the tries.
    fn try_subset(
        &mut self,
        subset: &Vec<usize>,
        input: &WizardInput,
        config: &WizardConfig,
        Ghost(cands): Ghost<Seq<usize>>,
        progress: &AtomicU64,
    )
        requires
            input.wf(),
            old(self).wf(input, config, cands),
            known_stores(input, subset@),
            subset@.len() <= EXHAUSTIVE_MAX_STORES,
        ensures
            final(self).wf(input, config, cands),
            sets(final(self).local_best@) == offer(
                input,
                config,
                cands,
                sets(old(self).local_best@),
                subset@,
            ),
    {
        tick(progress);
        let base = k_base_score(subset.len(), config.strategy);
        let worst = self.worst_best_score();
        let ghost before = self.local_best@;
        assert(self.local_best@.len() > 0 ==> sets(before).last()
            == self.local_best@.last().subset@);
        assert(self.local_best@.len() > 0 ==> self.local_best@.last() == before[before.len() - 1]);
        if self.cheapest_sum + self.least_base + base >= worst {
            assert(before[before.len() - 1].wf(input, config));
            return;
        }
        let (choices, score) = score_store_subset(input, config, subset);
        let copy = subset.clone();
        assert(copy@ =~= subset@);
        let entry = Found { subset: copy, choices, score };
        let mut pos: usize = self.local_best.len();
        proof {
            assert(sets(before).take(pos as int) =~= sets(before));
            assert(sets(before).skip(pos as int) =~= Seq::empty());
            assert(insert_top(input, config, sets(before), subset@) =~= insert_top(
                input,
                config,
                sets(before).take(pos as int),
                subset@,
            ) + sets(before).skip(pos as int));
        }
        while pos > 0 && self.local_best[pos - 1].score >= score
            invariant
                before == self.local_best@,
                all_wf(input, config, before),
                score == subset_score(input, config, subset@),
                pos <= before.len(),
                insert_top(input, config, sets(before), subset@) == insert_top(
                    input,
                    config,
                    sets(before).take(pos as int),
                    subset@,
                ) + sets(before).skip(pos as int),
            decreases pos,
        {
            proof {
                let all = sets(before);
                let t = all.take(pos as int);
                assert(before[pos - 1].wf(input, config));
                assert(t.drop_last() =~= all.take(pos - 1));
                assert(t.last() == before[pos - 1].subset@);
                assert(insert_top(input, config, t, subset@) == insert_top(
                    input,
                    config,
                    t.drop_last(),
                    subset@,
                ).push(t.last()));
                assert(insert_top(input, config, all.take(pos - 1), subset@) + all.skip(pos - 1)
                    =~= insert_top(input, config, t, subset@) + all.skip(pos as int));
            }
            pos -= 1;
        }
        proof {
            let all = sets(before);
            let t = all.take(pos as int);
            if pos > 0 {
                assert(before[pos - 1].wf(input, config));
                assert(t.last() == before[pos - 1].subset@);
            }
            assert(insert_top(input, config, t, subset@) == t.push(subset@));
            assert(sets(before.insert(pos as int, entry)) =~= t.push(subset@) + all.skip(
                pos as int,
            ));
            assert(entry.wf(input, config));
        }
        self.local_best.insert(pos, entry);
        let ghost full = self.local_best@;
        if self.local_best.len() > TOP_N {
            self.local_best.truncate(TOP_N);
        }
        proof {
            assert(sets(self.local_best@) =~= head(sets(full)));
            assert forall|i: int| 0 <= i < self.local_best@.len() implies (
            #[trigger] self.local_best@[i]).wf(input, config) by {
                assert(full[i] == before.insert(pos as int, entry)[i]);
                if i < pos {
                    assert(before[i].wf(input, config));
                } else if i > pos {
                    assert(before[i - 1].wf(input, config));
                }
            }
        }
    }

    /// Tries every extension of `prefix` by `k` candidates from `from` on.
    fn try_all(
        &mut self,
        prefix: &mut Vec<usize>,
        k: usize,
        from: usize,
        cands: &Vec<usize>,
        input: &WizardInput,
        config: &WizardConfig,
        progress: &AtomicU64,
    )
        requires
            input.wf(),
            old(self).wf(input, config, cands@),
            known_stores(input, cands@),
            known_stores(input, old(prefix)@),
            old(prefix)@.len() + k <= EXHAUSTIVE_MAX_STORES,
            from <= cands@.len(),
        ensures
            final(self).wf(input, config, cands@),
            final(prefix)@ == old(prefix)@,
            sets(final(self).local_best@) == offer_all(
                input,
                config,
                cands@,
                sets(old(self).local_best@),
                subsets(cands@, old(prefix)@, k as nat, from as nat),
            ),
        decreases k, cands@.len() - from,
    {
        let ghost top = sets(self.local_best@);
        let ghost pre = prefix@;
        if k == 0 {
            self.try_subset(prefix, input, config, Ghost(cands@), progress);
            proof {
                let one = seq![pre];
                assert(one.drop_last() =~= Seq::empty());
                assert(offer_all(input, config, cands@, top, one) == offer(
                    input,
                    config,
                    cands@,
                    offer_all(input, config, cands@, top, one.drop_last()),
                    pre,
                ));
            }
        } else if from < cands.len() {
            assert(cands@[from as int] < input.stores());
            prefix.push(cands[from]);
            self.try_all(prefix, k - 1, from + 1, cands, input, config, progress);
            prefix.pop();
            assert(prefix@ =~= pre);
            self.try_all(prefix, k, from + 1, cands, input, config, progress);
            proof {
                lemma_offer_split(
                    input,
                    config,
                    cands@,
                    top,
                    subsets(cands@, pre.push(cands@[from as int]), (k - 1) as nat, (from + 1) as nat),
                    subsets(cands@, pre, k as nat, (from + 1) as nat),
                );
            }
        }
    }
}

/// Trying one list and then another is trying both in a row.
proof fn lemma_offer_split(
    input: &WizardInput,
    config: &WizardConfig,
    cands: Seq<usize>,
    top: Seq<Seq<usize>>,
    a: Seq<Seq<usize>>,
    b: Seq<Seq<usize>>,
)
    ensures
        offer_all(input, config, cands, top, a + b) == offer_all(
            input,
            config,
            cands,
            offer_all(input, config, cands, top, a),
            b,
        ),
    decreases b.len(),
{
    if b.len() == 0 {
        assert(a + b =~= a);
    } else {
        assert((a + b).drop_last() =~= a + b.drop_last());
        lemma_offer_split(input, config, cands, top, a, b.drop_last());
    }
}

/// The sum of the lowest prices of the cards among the candidates.
fn sum_lowest_prices(input: &WizardInput, cands: &Vec<usize>) -> (sum: u64)
    requires
        input.wf(),
        known_stores(input, cands@),
    ensures
        sum == total(lowest_prices(input, cands@)),
        sum <= MAX_TOTAL,
{
    let n: usize = input.cards.len();
    let ghost low = lowest_prices(input, cands@);
    let mut sum: u64 = 0;
    let mut ci: usize = 0;
    assert(low.take(0) =~= Seq::empty());
    while ci < n
        invariant
            input.wf(),
            known_stores(input, cands@),
            n == input.n_cards(),
            low == lowest_prices(input, cands@),
            ci <= n,
            sum == total(low.take(ci as int)),
            sum <= u32::MAX * ci,
        decreases n - ci,
    {
        proof {
            lemma_total_take(low, ci as int);
            assert(u32::MAX * (ci + 1) <= u32::MAX * 0x1_0000_0000) by (nonlinear_arith)
                requires
                    ci < u32::MAX,
            ;
        }
        if let Some((_, price)) = find_best(input, ci, cands) {
            sum = sum + price as u64;
        }
        ci += 1;
    }
    proof {
        assert(low.take(n as int) =~= low);
        let top = input.top_prices();
        assert forall|c: int| 0 <= c < low.len() implies low[c] <= #[trigger] top[c] by {
            lemma_greedy_choice(input, cands@, c);
            assert(input.card_ok(c));
        }
        lemma_total_le(low, top);
    }
    sum
}

/// The lowest base shipping among the candidates.
fn find_lowest_base(input: &WizardInput, cands: &Vec<usize>) -> (base: u64)
    requires
        input.wf(),
        known_stores(input, cands@),
    ensures
        base == lowest_base(input, cands@),
        base <= u32::MAX,
{
    let mut base: u64 = 0;
    let mut i: usize = 0;
    assert(cands@.take(0) =~= Seq::empty());
    while i < cands.len()
        invariant
            input.wf(),
            known_stores(input, cands@),
            i <= cands@.len(),
            base == lowest_base(input, cands@.take(i as int)),
            base <= u32::MAX,
        decreases cands@.len() - i,
    {
        proof {
            let t = cands@.take(i + 1);
            assert(t.drop_last() =~= cands@.take(i as int));
            assert(t.last() == cands@[i as int]);
            assert(cands@[i as int] < input.stores());
        }
        let here: u64 = input.shipping_bases[cands[i]] as u64;
        if i == 0 || here < base {
            base = here;
        }
        i += 1;
    }
    assert(cands@.take(i as int) =~= cands@);
    base
}

/// The best findings of `v`, earlier ones first among equals.
fn keep_best(v: Vec<Found>, input: &WizardInput, config: &WizardConfig) -> (kept: Vec<Found>)
    requires
        all_wf(input, config, v@),
    ensures
        all_wf(input, config, kept@),
        sets(kept@) == head(stable_sorted(sets(v@), by_score(input, config))),
{
    let ghost all = v@;
    let mut sorted = sort_all(v, input, config);
    let ghost full = sorted@;
    if sorted.len() > TOP_N {
        sorted.truncate(TOP_N);
    }
    proof {
        assert(sets(sorted@) =~= head(sets(full)));
        assert forall|i: int| 0 <= i < sorted@.len() implies (#[trigger] sorted@[i]).wf(
            input,
            config,
        ) by {
            assert(full[i].wf(input, config));
        }
    }
    sorted
}

/// The findings of `v` by score, earlier ones first among equals.
fn sort_all(v: Vec<Found>, input: &WizardInput, config: &WizardConfig) -> (sorted: Vec<Found>)
    requires
        all_wf(input, config, v@),
    ensures
        all_wf(input, config, sorted@),
        sets(sorted@) == stable_sorted(sets(v@), by_score(input, config)),
{
    let ghost all = v@;
    let sorted = sort_by_rank(v);
    proof {
        let f = |f: Found| f.subset@;
        let key = by_score(input, config);
        assert forall|i: int| 0 <= i < all.len() implies key(f(#[trigger] all[i])) == by_rank::<
            Found,
        >()(all[i]) by {
            assert(all[i].wf(input, config));
        }
        lemma_sorted_map(all, by_rank::<Found>(), f, key);
        law_stable_sorted(all, by_rank::<Found>());
        assert forall|i: int| 0 <= i < sorted@.len() implies (#[trigger] sorted@[i]).wf(
            input,
            config,
        ) by {
            assert(sorted@.contains(sorted@[i]));
            assert(all.contains(sorted@[i]));
            let k = choose|k: int| 0 <= k < all.len() && all[k] == sorted@[i];
            assert(all[k].wf(input, config));
        }
    }
    sorted
}

/// Gathers the best findings of several searches.
fn gather_found(
    lists: Vec<Vec<Found>>,
    input: &WizardInput,
    config: &WizardConfig,
) -> (best: Vec<Found>)
    requires
        forall|i: int| 0 <= i < lists@.len() ==> all_wf(input, config, (#[trigger] lists@[i])@),
    ensures
        all_wf(input, config, best@),
        sets(best@) == gather(
            input,
            config,
            Seq::new(lists@.len(), |i: int| sets(lists@[i]@)),
        ),
{
    let ghost whole = Seq::new(lists@.len(), |i: int| sets(lists@[i]@));
    let ghost given = lists@;
    let mut rest = lists;
    let mut best: Vec<Found> = Vec::new();
    proof {
        assert(whole.take(0) =~= Seq::empty());
        assert(sets(best@) =~= Seq::empty());
        assert(given.skip(0) =~= given);
    }
    while rest.len() > 0
        invariant
            whole == Seq::new(given.len(), |i: int| sets(given[i]@)),
            forall|i: int| 0 <= i < given.len() ==> all_wf(input, config, (#[trigger] given[i])@),
            rest@.len() <= given.len(),
            rest@ == given.skip(given.len() - rest@.len()),
            all_wf(input, config, best@),
            sets(best@) == gather(input, config, whole.take(given.len() - rest@.len())),
        decreases rest@.len(),
    {
        let ghost done = given.len() - rest@.len();
        let mut next = rest.remove(0);
        let ghost b0 = best@;
        let ghost n0 = next@;
        assert(next@ == given[done]@);
        assert(rest@ =~= given.skip(done + 1));
        best.append(&mut next);
        proof {
            assert(best@ =~= b0 + n0);
            assert(sets(b0 + n0) =~= sets(b0) + sets(n0));
            let t = whole.take(done + 1);
            assert(t.drop_last() =~= whole.take(done));
            assert(t.last() == sets(n0));
            assert forall|i: int| 0 <= i < best@.len() implies (#[trigger] best@[i]).wf(
                input,
                config,
            ) by {
                if i < b0.len() {
                    assert(b0[i].wf(input, config));
                } else {
                    assert(given[done]@[i - b0.len()].wf(input, config));
                }
            }
        }
        best = keep_best(best, input, config);
    }
    assert(whole.take(whole.len() as int) =~= whole);
    best
}

/// The best findings among the `k`-store sets with the first store `a`.
fn search_from(
    input: &WizardInput,
    config: &WizardConfig,
    cands: &Vec<usize>,
    cheapest_sum: u64,
    least_base: u64,
    k: usize,
    a: usize,
    progress: &AtomicU64,
) -> (best: Vec<Found>)
    requires
        input.wf(),
        known_stores(input, cands@),
        cheapest_sum == total(lowest_prices(input, cands@)),
        least_base == lowest_base(input, cands@),
        cheapest_sum <= MAX_TOTAL,
        least_base <= u32::MAX,
        1 <= k <= EXHAUSTIVE_MAX_STORES,
        a < cands@.len(),
    ensures
        all_wf(input, config, best@),
        sets(best@) == best_from(input, config, cands@, k as nat, a as nat),
{
    assert(cands@[a as int] < input.stores());
    assert(a < cands.len());
    let mut eval = SubsetEvaluator::new(cheapest_sum, least_base);
    let mut prefix: Vec<usize> = Vec::new();
    prefix.push(cands[a]);
    assert(prefix@ =~= seq![cands@[a as int]]);
    assert(sets(eval.local_best@) =~= Seq::empty());
    eval.try_all(&mut prefix, k - 1, a + 1, cands, input, config, progress);
    eval.local_best
}

/// The best findings among all `k`-store sets.
fn search_size(
    input: &WizardInput,
    config: &WizardConfig,
    cands: &Vec<usize>,
    cheapest_sum: u64,
    least_base: u64,
    k: usize,
    progress: &AtomicU64,
) -> (best: Vec<Found>)
    requires
        input.wf(),
        known_stores(input, cands@),
        cheapest_sum == total(lowest_prices(input, cands@)),
        least_base == lowest_base(input, cands@),
        cheapest_sum <= MAX_TOTAL,
        least_base <= u32::MAX,
        1 <= k <= EXHAUSTIVE_MAX_STORES,
    ensures
        all_wf(input, config, best@),
        sets(best@) == offer_all(
            input,
            config,
            cands@,
            Seq::empty(),
            subsets(cands@, Seq::empty(), k as nat, 0),
        ),
{
    let mut eval = SubsetEvaluator::new(cheapest_sum, least_base);
    let mut prefix: Vec<usize> = Vec::new();
    assert(prefix@ =~= Seq::empty());
    assert(sets(eval.local_best@) =~= Seq::empty());
    eval.try_all(&mut prefix, k, 0, cands, input, config, progress);
    eval.local_best
}

/// The best findings among the `k`-store sets, with one parallel search per first store.
fn search_large(
    input: &WizardInput,
    config: &WizardConfig,
    cands: &Vec<usize>,
    cheapest_sum: u64,
    least_base: u64,
    k: usize,
    progress: &AtomicU64,
) -> (best: Vec<Found>)
    requires
        input.wf(),
        known_stores(input, cands@),
        cheapest_sum == total(lowest_prices(input, cands@)),
        least_base == lowest_base(input, cands@),
        cheapest_sum <= MAX_TOTAL,
        least_base <= u32::MAX,
        1 <= k <= EXHAUSTIVE_MAX_STORES,
    ensures
        all_wf(input, config, best@),
        sets(best@) == best_large(input, config, cands@, k as nat),
{
    if cands.len() < k {
        let none: Vec<Found> = Vec::new();
        assert(sets(none@) =~= Seq::empty());
        return none;
    }
    let firsts: usize = cands.len() - k + 1;
    let search = |a: usize| -> (best: Vec<Found>)
        requires
            firsts > a,
        ensures
            all_wf(input, config, best@),
            sets(best@) == best_from(input, config, cands@, k as nat, a as nat),
    {
        search_from(input, config, cands, cheapest_sum, least_base, k, a, progress)
    };
    let lists = map_indices(firsts, search);
    proof {
        assert forall|i: int| 0 <= i < lists@.len() implies all_wf(
            input,
            config,
            (#[trigger] lists@[i])@,
        ) && sets(lists@[i]@) == best_from(input, config, cands@, k as nat, i as nat) by {
            let j = i as usize;
            assert(lists@[j as int] == lists@[i]);
        }
        assert(Seq::new(lists@.len(), |i: int| sets(lists@[i]@)) =~= Seq::new(
            (cands@.len() - k + 1) as nat,
            |a: int| best_from(input, config, cands@, k as nat, a as nat),
        ));
    }
    gather_found(lists, input, config)
}

/// The best findings among the sets of up to three stores, one parallel search per size.
fn search_small(
    input: &WizardInput,
    config: &WizardConfig,
    cands: &Vec<usize>,
    cheapest_sum: u64,
    least_base: u64,
    progress: &AtomicU64,
) -> (best: Vec<Found>)
    requires
        input.wf(),
        known_stores(input, cands@),
        cheapest_sum == total(lowest_prices(input, cands@)),
        least_base == lowest_base(input, cands@),
        cheapest_sum <= MAX_TOTAL,
        least_base <= u32::MAX,
    ensures
        all_wf(input, config, best@),
        sets(best@) == best_small(input, config, cands@),
{
    let sizes: usize = if cands.len() < 3 {
        cands.len()
    } else {
        3
    };
    let search = |i: usize| -> (best: Vec<Found>)
        requires
            3 >= sizes && sizes > i,
        ensures
            all_wf(input, config, best@),
            sets(best@) == offer_all(
                input,
                config,
                cands@,
                Seq::empty(),
                subsets(cands@, Seq::empty(), (i + 1) as nat, 0),
            ),
    {
        search_size(input, config, cands, cheapest_sum, least_base, i + 1, progress)
    };
    let lists = map_indices(sizes, search);
    proof {
        assert forall|i: int| 0 <= i < lists@.len() implies all_wf(
            input,
            config,
            (#[trigger] lists@[i])@,
        ) && sets(lists@[i]@) == offer_all(
            input,
            config,
            cands@,
            Seq::empty(),
            subsets(cands@, Seq::empty(), (i + 1) as nat, 0),
        ) by {
            let j = i as usize;
            assert(lists@[j as int] == lists@[i]);
        }
        assert(Seq::new(lists@.len(), |i: int| sets(lists@[i]@)) =~= Seq::new(
            if cands@.len() < 3 {
                cands@.len()
            } else {
                3
            },
            |i: int|
                offer_all(
                    input,
                    config,
                    cands@,
                    Seq::empty(),
                    subsets(cands@, Seq::empty(), (i + 1) as nat, 0),
                ),
        ));
    }
    gather_found(lists, input, config)
}

/// Are the two lists of choices the same?
pub fn same_choices(a: &Vec<Option<usize>>, b: &Vec<Option<usize>>) -> (same: bool)
    ensures
        same == (a@ == b@),
{
    if a.len() != b.len() {
        return false;
    }
    let mut i: usize = 0;
    while i < a.len()
        invariant
            a@.len() == b@.len(),
            i <= a@.len(),
            forall|k: int| 0 <= k < i ==> a@[k] == b@[k],
        decreases a@.len() - i,
    {
        if a[i] != b[i] {
            assert(a@[i as int] != b@[i as int]);
            return false;
        }
        i += 1;
    }
    assert(a@ =~= b@);
    true
}

/// Drops findings that assign the cards like an earlier one.
fn drop_repeats(v: Vec<Found>, input: &WizardInput, config: &WizardConfig) -> (kept: Vec<Found>)
    requires
        all_wf(input, config, v@),
    ensures
        all_wf(input, config, kept@),
        sets(kept@) == distinct_choices(input, sets(v@)),
{
    let ghost given = v@;
    let mut rest = v;
    let mut kept: Vec<Found> = Vec::new();
    proof {
        assert(sets(given).take(0) =~= Seq::empty());
        assert(sets(kept@) =~= Seq::empty());
        assert(given.skip(0) =~= given);
    }
    while rest.len() > 0
        invariant
            all_wf(input, config, given),
            rest@.len() <= given.len(),
            rest@ == given.skip(given.len() - rest@.len()),
            all_wf(input, config, kept@),
            sets(kept@) == distinct_choices(
                input,
                sets(given).take(given.len() - rest@.len()),
            ),
        decreases rest@.len(),
    {
        let ghost done = given.len() - rest@.len();
        let next = rest.remove(0);
        assert(next == given[done]);
        assert(rest@ =~= given.skip(done + 1));
        let mut seen: bool = false;
        let mut i: usize = 0;
        while i < kept.len()
            invariant
                i <= kept@.len(),
                all_wf(input, config, kept@),
                next.wf(input, config),
                seen == exists|k: int|
                    0 <= k < i && greedy_choices(input, #[trigger] sets(kept@)[k])
                        == greedy_choices(input, next.subset@),
            decreases kept@.len() - i,
        {
            let same = same_choices(&kept[i].choices, &next.choices);
            proof {
                assert(kept@[i as int].wf(input, config));
                assert(sets(kept@)[i as int] == kept@[i as int].subset@);
            }
            if same {
                seen = true;
            }
            i += 1;
        }
        proof {
            let t = sets(given).take(done + 1);
            assert(t.drop_last() =~= sets(given).take(done));
            assert(t.last() == next.subset@);
        }
        if !seen {
            let ghost k0 = kept@;
            kept.push(next);
            proof {
                assert(sets(kept@) =~= sets(k0).push(next.subset@));
                assert forall|j: int| 0 <= j < kept@.len() implies (#[trigger] kept@[j]).wf(
                    input,
                    config,
                ) by {
                    if j < k0.len() {
                        assert(k0[j].wf(input, config));
                    }
                }
            }
        }
    }
    assert(sets(given).take(given.len() as int) =~= sets(given));
    kept
}

/// Searches the store combinations of up to `EXHAUSTIVE_MAX_STORES` candidates
/// and returns the best solutions, best first; nothing without candidates.
/// `progress` counts the combinations tried.
pub fn optimize_exhaustive(
    input: &WizardInput,
    config: &WizardConfig,
    candidates: &Vec<usize>,
    progress: &AtomicU64,
) -> (solutions: Option<Vec<WizardSolution>>)
    requires
        input.wf(),
        known_stores(input, candidates@),
    ensures
        solutions is None <==> candidates@.len() == 0,
        solutions matches Some(found) ==> {
            let want = exhaustive_result(input, config, candidates@);
            &&& found@.len() == want.len()
            &&& forall|i: int|
                0 <= i < want.len() ==> (#[trigger] found@[i]).describes(
                    input,
                    config,
                    greedy_choices(input, want[i]),
                )
        },
{
    let cheapest_sum = sum_lowest_prices(input, candidates);
    let least_base = find_lowest_base(input, candidates);
    let mut best4 = search_large(input, config, candidates, cheapest_sum, least_base, 4, progress);
    let mut best5 = search_large(input, config, candidates, cheapest_sum, least_base, 5, progress);
    let mut small = search_small(input, config, candidates, cheapest_sum, least_base, progress);
    let ghost b4 = best4@;
    let ghost b5 = best5@;
    let ghost b1 = small@;
    let mut merged: Vec<Found> = Vec::new();
    merged.append(&mut best4);
    merged.append(&mut best5);
    merged.append(&mut small);
    proof {
        assert(merged@ =~= b4 + b5 + b1);
        assert(sets(merged@) =~= sets(b4) + sets(b5) + sets(b1));
        assert forall|i: int| 0 <= i < merged@.len() implies (#[trigger] merged@[i]).wf(
            input,
            config,
        ) by {
            if i < b4.len() {
                assert(b4[i].wf(input, config));
            } else if i < b4.len() + b5.len() {
                assert(b5[i - b4.len()].wf(input, config));
            } else {
                assert(b1[i - b4.len() - b5.len()].wf(input, config));
            }
        }
    }
    let merged = drop_repeats(sort_all(merged, input, config), input, config);
    proof {
        lemma_exhaustive_some(input, config, candidates@);
    }
    let ghost want = exhaustive_result(input, config, candidates@);
    let mut solutions: Vec<WizardSolution> = Vec::new();
    let mut i: usize = 0;
    while i < merged.len() && i < TOP_N
        invariant
            input.wf(),
            all_wf(input, config, merged@),
            want == head(sets(merged@)),
            i <= merged@.len(),
            i <= TOP_N,
            solutions@.len() == i,
            forall|k: int|
                0 <= k < i ==> (#[trigger] solutions@[k]).describes(
                    input,
                    config,
                    greedy_choices(input, want[k]),
                ),
        decreases merged@.len() - i,
    {
        let one = solution_from_choices(&merged[i].choices, input, config);
        proof {
            assert(merged@[i as int].wf(input, config));
            assert(want[i as int] == merged@[i as int].subset@);
            lemma_greedy_valid(input, want[i as int]);
            lemma_fitted_valid(input, greedy_choices(input, want[i as int]));
        }
        solutions.push(one);
        i += 1;
    }
    if solutions.len() == 0 {
        None
    } else {
        Some(solutions)
    }
}

/// Entries of a best list are ordered by score.
pub open spec fn by_score_ascending(
    input: &WizardInput,
    config: &WizardConfig,
    top: Seq<Seq<usize>>,
) -> bool {
    ascending(top, by_score(input, config))
}

/// No score of `list` lies below that of the first entry of `top`, except where
/// the estimate for its size does not lie below it either.
pub open spec fn first_covers(
    input: &WizardInput,
    config: &WizardConfig,
    cands: Seq<usize>,
    top: Seq<Seq<usize>>,
    s: Seq<usize>,
) -> bool {
    &&& top.len() > 0
    &&& subset_score(input, config, s) >= subset_score(input, config, top[0]) || estimate(
        input,
        config,
        cands,
        s.len() as int,
    ) >= subset_score(input, config, top[0])
}

proof fn lemma_insert_top(
    input: &WizardInput,
    config: &WizardConfig,
    top: Seq<Seq<usize>>,
    s: Seq<usize>,
)
    requires
        by_score_ascending(input, config, top),
    ensures
        by_score_ascending(input, config, insert_top(input, config, top, s)),
        insert_top(input, config, top, s).len() == top.len() + 1,
        subset_score(input, config, insert_top(input, config, top, s)[0]) <= subset_score(
            input,
            config,
            s,
        ),
        top.len() > 0 ==> subset_score(input, config, insert_top(input, config, top, s)[0])
            <= subset_score(input, config, top[0]),
        top.len() > 0 ==> subset_score(input, config, insert_top(input, config, top, s).last())
            >= subset_score(input, config, top.last()),
        forall|x: Seq<usize>| #[trigger]
            insert_top(input, config, top, s).contains(x) ==> top.contains(x) || x == s,
        subset_score(input, config, insert_top(input, config, top, s).last()) >= subset_score(
            input,
            config,
            s,
        ),
    decreases top.len(),
{
    let r = insert_top(input, config, top, s);
    let key = by_score(input, config);
    if top.len() == 0 || subset_score(input, config, top.last()) < subset_score(input, config, s) {
        assert forall|i: int, j: int| 0 <= i <= j < r.len() implies key(#[trigger] r[i]) <= key(
            #[trigger] r[j],
        ) by {
            if j < top.len() {
                assert(key(top[i]) <= key(top[j]));
            } else if i < top.len() {
                assert(key(top[i]) <= key(top[top.len() - 1]));
            }
        }
        if top.len() > 0 {
            assert(key(top[0]) <= key(top[top.len() - 1]));
        }
        assert forall|x: Seq<usize>| #[trigger] r.contains(x) implies top.contains(x) || x == s by {
            let i = choose|i: int| 0 <= i < r.len() && r[i] == x;
            if i < top.len() {
                assert(top[i] == x);
            }
        }
    } else {
        let p = top.drop_last();
        assert forall|i: int, j: int| 0 <= i <= j < p.len() implies key(#[trigger] p[i]) <= key(
            #[trigger] p[j],
        ) by {
            assert(key(top[i]) <= key(top[j]));
        }
        lemma_insert_top(input, config, p, s);
        let q = insert_top(input, config, p, s);
        assert forall|x: Seq<usize>| #[trigger] r.contains(x) implies top.contains(x) || x == s by {
            let i = choose|i: int| 0 <= i < r.len() && r[i] == x;
            if i < q.len() {
                assert(q[i] == x);
                assert(q.contains(x));
                if x != s {
                    let j = choose|j: int| 0 <= j < p.len() && p[j] == x;
                    assert(top[j] == x);
                }
            } else {
                assert(top[top.len() - 1] == x);
            }
        }
        assert forall|i: int, j: int| 0 <= i <= j < r.len() implies key(#[trigger] r[i]) <= key(
            #[trigger] r[j],
        ) by {
            if j < q.len() {
                assert(key(q[i]) <= key(q[j]));
            } else if i < q.len() {
                assert(q.contains(q[i]));
                if q[i] != s {
                    let k = choose|k: int| 0 <= k < p.len() && p[k] == q[i];
                    assert(key(top[k]) <= key(top[top.len() - 1]));
                }
            }
        }
        assert(r[0] == q[0]);
        if p.len() > 0 {
            assert(top[0] == p[0]);
        }
    }
}

/// Trying a subset keeps the list ordered and its best score no higher, and the
/// best score then covers the subset.
proof fn lemma_offer(
    input: &WizardInput,
    config: &WizardConfig,
    cands: Seq<usize>,
    top: Seq<Seq<usize>>,
    s: Seq<usize>,
)
    requires
        by_score_ascending(input, config, top),
        top.len() <= TOP_N,
    ensures
        ({
            let next = offer(input, config, cands, top, s);
            &&& by_score_ascending(input, config, next)
            &&& 0 < next.len() <= TOP_N
            &&& first_covers(input, config, cands, next, s)
            &&& top.len() > 0 ==> subset_score(input, config, next[0]) <= subset_score(
                input,
                config,
                top[0],
            )
        }),
{
    let key = by_score(input, config);
    let next = offer(input, config, cands, top, s);
    if top.len() >= TOP_N && estimate(input, config, cands, s.len() as int) >= subset_score(
        input,
        config,
        top.last(),
    ) {
        assert(key(top[0]) <= key(top[top.len() - 1]));
    } else {
        lemma_insert_top(input, config, top, s);
        let full = insert_top(input, config, top, s);
        assert(next[0] == full[0]);
        assert forall|i: int, j: int| 0 <= i <= j < next.len() implies key(#[trigger] next[i])
            <= key(#[trigger] next[j]) by {
            assert(key(full[i]) <= key(full[j]));
        }
    }
}

/// A search of `list` finds something if there is anything to try, and its best
/// finding covers the whole list.
proof fn lemma_offer_all(
    input: &WizardInput,
    config: &WizardConfig,
    cands: Seq<usize>,
    list: Seq<Seq<usize>>,
)
    ensures
        ({
            let top = offer_all(input, config, cands, Seq::empty(), list);
            &&& by_score_ascending(input, config, top)
            &&& top.len() <= TOP_N
            &&& forall|x: Seq<usize>| #[trigger] list.contains(x) ==> first_covers(
                input,
                config,
                cands,
                top,
                x,
            )
        }),
    decreases list.len(),
{
    if list.len() > 0 {
        let p = list.drop_last();
        lemma_offer_all(input, config, cands, p);
        let before = offer_all(input, config, cands, Seq::empty(), p);
        lemma_offer(input, config, cands, before, list.last());
        let top = offer(input, config, cands, before, list.last());
        assert forall|x: Seq<usize>| #[trigger] list.contains(x) implies first_covers(
            input,
            config,
            cands,
            top,
            x,
        ) by {
            let i = choose|i: int| 0 <= i < list.len() && list[i] == x;
            if i < p.len() {
                assert(p[i] == x);
                assert(p.contains(x));
                assert(first_covers(input, config, cands, before, x));
            }
        }
    }
}

/// Gathering keeps the lowest score.
proof fn lemma_gather(
    input: &WizardInput,
    config: &WizardConfig,
    lists: Seq<Seq<Seq<usize>>>,
    i: int,
)
    requires
        0 <= i < lists.len(),
        lists[i].len() > 0,
    ensures
        gather(input, config, lists).len() > 0,
        subset_score(input, config, gather(input, config, lists)[0]) <= subset_score(
            input,
            config,
            lists[i][0],
        ),
    decreases lists.len(),
{
    let rest = gather(input, config, lists.drop_last());
    let all = rest + lists.last();
    let key = by_score(input, config);
    law_stable_sorted(all, key);
    let sorted = stable_sorted(all, key);
    if i < lists.len() - 1 {
        lemma_gather(input, config, lists.drop_last(), i);
        assert(all[0] == rest[0]);
        lemma_sorted_first(all, key, 0);
    } else {
        assert(all[rest.len() as int] == lists[i][0]);
        lemma_sorted_first(all, key, rest.len() as int);
    }
}

/// The first entry of a sorted list has the lowest key.
proof fn lemma_sorted_first<A>(s: Seq<A>, key: spec_fn(A) -> int, i: int)
    requires
        0 <= i < s.len(),
    ensures
        stable_sorted(s, key).len() > 0,
        key(stable_sorted(s, key)[0]) <= key(s[i]),
{
    law_stable_sorted(s, key);
    let t = stable_sorted(s, key);
    assert(s.contains(s[i]));
    assert(t.contains(s[i]));
    let j = choose|j: int| 0 <= j < t.len() && t[j] == s[i];
    assert(key(t[0]) <= key(t[j]));
}

/// Dropping repeats keeps the first entry.
proof fn lemma_distinct_first(input: &WizardInput, s: Seq<Seq<usize>>)
    requires
        s.len() > 0,
    ensures
        distinct_choices(input, s).len() > 0,
        distinct_choices(input, s)[0] == s[0],
    decreases s.len(),
{
    let p = s.drop_last();
    if p.len() > 0 {
        lemma_distinct_first(input, p);
    } else {
        assert(distinct_choices(input, p) =~= Seq::empty());
    }
}

/// The best solution covers every list that was searched.
proof fn lemma_result_first(
    input: &WizardInput,
    config: &WizardConfig,
    cands: Seq<usize>,
    part: Seq<Seq<usize>>,
)
    requires
        part.len() > 0,
        part == best_large(input, config, cands, 4) || part == best_large(input, config, cands, 5)
            || part == best_small(input, config, cands),
    ensures
        exhaustive_result(input, config, cands).len() > 0,
        subset_score(input, config, exhaustive_result(input, config, cands)[0]) <= subset_score(
            input,
            config,
            part[0],
        ),
{
    let b4 = best_large(input, config, cands, 4);
    let b5 = best_large(input, config, cands, 5);
    let b1 = best_small(input, config, cands);
    let all = b4 + b5 + b1;
    let key = by_score(input, config);
    if part == b4 {
        assert(all[0] == part[0]);
        lemma_sorted_first(all, key, 0);
    } else if part == b5 {
        assert(all[b4.len() as int] == part[0]);
        lemma_sorted_first(all, key, b4.len() as int);
    } else {
        assert(all[(b4.len() + b5.len()) as int] == part[0]);
        lemma_sorted_first(all, key, (b4.len() + b5.len()) as int);
    }
    lemma_distinct_first(input, stable_sorted(all, key));
}

/// With a candidate there is a solution; without one there is none.
proof fn lemma_exhaustive_some(input: &WizardInput, config: &WizardConfig, cands: Seq<usize>)
    ensures
        exhaustive_result(input, config, cands).len() > 0 <==> cands.len() > 0,
{
    if cands.len() > 0 {
        let one = subsets(cands, Seq::empty(), 1, 0);
        let s = seq![cands[0]];
        law_subsets_complete(cands, Seq::empty(), 0, seq![0int]);
        let none: Seq<usize> = Seq::empty();
        assert(none + seq![0int].map_values(|i: int| cands[i]) =~= s);
        law_exhaustive_best(input, config, cands, 1, s);
    } else {
        assert(gather(input, config, Seq::empty()) =~= Seq::empty());
        let lists = Seq::new(
            0nat,
            |i: int|
                offer_all(
                    input,
                    config,
                    cands,
                    Seq::empty(),
                    subsets(cands, Seq::empty(), (i + 1) as nat, 0),
                ),
        );
        assert(lists =~= Seq::empty());
        let all = best_large(input, config, cands, 4) + best_large(input, config, cands, 5)
            + best_small(input, config, cands);
        assert(all =~= Seq::empty());
        let sorted = stable_sorted(all, by_score(input, config));
        assert(sorted.len() == 0);
        assert(distinct_choices(input, sorted) =~= sorted);
    }
}

proof fn lemma_best_of_large(
    input: &WizardInput,
    config: &WizardConfig,
    cands: Seq<usize>,
    k: nat,
    s: Seq<usize>,
)
    requires
        4 <= k <= EXHAUSTIVE_MAX_STORES,
        subsets(cands, Seq::empty(), k, 0).contains(s),
        s.len() == k,
    ensures
        exhaustive_result(input, config, cands).len() > 0,
        ({
            let best = subset_score(input, config, exhaustive_result(input, config, cands)[0]);
            subset_score(input, config, s) >= best || estimate(input, config, cands, k as int)
                >= best
        }),
{
    let a = lemma_subsets_first(cands, Seq::empty(), k, 0, s);
    let none: Seq<usize> = Seq::empty();
    assert(none.push(cands[a as int]) =~= seq![cands[a as int]]);
    let list = subsets(cands, seq![cands[a as int]], (k - 1) as nat, a + 1);
    lemma_offer_all(input, config, cands, list);
    assert(list.contains(s));
    let lists = Seq::new(
        (cands.len() - k + 1) as nat,
        |a: int| best_from(input, config, cands, k, a as nat),
    );
    let top = best_from(input, config, cands, k, a);
    assert(lists[a as int] == top);
    assert(first_covers(input, config, cands, top, s));
    lemma_gather(input, config, lists, a as int);
    lemma_result_first(input, config, cands, best_large(input, config, cands, k));
}

proof fn lemma_best_of_small(
    input: &WizardInput,
    config: &WizardConfig,
    cands: Seq<usize>,
    k: nat,
    s: Seq<usize>,
)
    requires
        1 <= k <= 3,
        subsets(cands, Seq::empty(), k, 0).contains(s),
        s.len() == k,
    ensures
        exhaustive_result(input, config, cands).len() > 0,
        ({
            let best = subset_score(input, config, exhaustive_result(input, config, cands)[0]);
            subset_score(input, config, s) >= best || estimate(input, config, cands, k as int)
                >= best
        }),
{
    if k > cands.len() {
        lemma_subsets_none(cands, Seq::empty(), k, 0);
    }
    let list = subsets(cands, Seq::empty(), k, 0);
    lemma_offer_all(input, config, cands, list);
    let lists = Seq::new(
        if cands.len() < 3 {
            cands.len()
        } else {
            3
        },
        |i: int|
            offer_all(
                input,
                config,
                cands,
                Seq::empty(),
                subsets(cands, Seq::empty(), (i + 1) as nat, 0),
            ),
    );
    let top = offer_all(input, config, cands, Seq::empty(), list);
    assert(lists[k - 1] == top);
    assert(first_covers(input, config, cands, top, s));
    lemma_gather(input, config, lists, k - 1);
    lemma_result_first(input, config, cands, best_small(input, config, cands));
}

/// The best solution of an exhaustive search does not score above any set of up
/// to five candidates, except where the estimate for sets of that size does not
/// lie below the best score either.
pub proof fn law_exhaustive_best(
    input: &WizardInput,
    config: &WizardConfig,
    cands: Seq<usize>,
    k: nat,
    s: Seq<usize>,
)
    requires
        1 <= k <= EXHAUSTIVE_MAX_STORES,
        subsets(cands, Seq::empty(), k, 0).contains(s),
    ensures
        exhaustive_result(input, config, cands).len() > 0,
        ({
            let best = subset_score(input, config, exhaustive_result(input, config, cands)[0]);
            subset_score(input, config, s) >= best || estimate(input, config, cands, k as int)
                >= best
        }),
{
    lemma_subsets_members(cands, Seq::empty(), k, 0, s);
    if k >= 4 {
        lemma_best_of_large(input, config, cands, k, s);
    } else {
        lemma_best_of_small(input, config, cands, k, s);
    }
}

/// The number of store sets that an exhaustive search tries for `n` candidates.
pub open spec fn combo_count(n: nat, max: nat) -> nat
    decreases max,
{
    if max == 0 {
        0
    } else {
        combo_count(n, (max - 1) as nat) + binomial(n, max)
    }
}

/// The most stores in a combination of `n` candidates.
pub open spec fn most_stores(n: nat) -> nat {
    if n < EXHAUSTIVE_MAX_STORES {
        n
    } else {
        EXHAUSTIVE_MAX_STORES as nat
    }
}

/// The number of combinations of `n` candidates, and what it takes to compute it,
/// fits 64 bits.
pub open spec fn combos_fit(n: nat) -> bool {
    forall|k: nat|
        1 <= k <= most_stores(n) ==> k * (#[trigger] binomial(n, k)) <= u64::MAX && combo_count(n, k)
            <= u64::MAX
}

/// The number of store combinations that an exhaustive search of the candidates
/// tries, if that is not too large.
pub fn try_combo_total(candidates: &Vec<usize>) -> (count: Option<u64>)
    ensures
        count is Some <==> combos_fit(candidates@.len()),
        count matches Some(c) ==> c == combo_count(
            candidates@.len(),
            most_stores(candidates@.len()),
        ),
{
    let n: usize = candidates.len();
    let ghost m = candidates@.len();
    let max: usize = if n < EXHAUSTIVE_MAX_STORES {
        n
    } else {
        EXHAUSTIVE_MAX_STORES
    };
    let mut sum: u64 = 0;
    let mut c: u64 = 1;
    let mut k: usize = 0;
    while k < max
        invariant
            m == candidates@.len(),
            m == n,
            max == most_stores(m),
            k <= max <= n,
            c == binomial(m, k as nat),
            sum == combo_count(m, k as nat),
            forall|j: nat|
                1 <= j <= k ==> j * (#[trigger] binomial(m, j)) <= u64::MAX && combo_count(m, j)
                    <= u64::MAX,
        decreases max - k,
    {
        let ghost next = binomial(m, (k + 1) as nat);
        proof {
            lemma_binomial_step(m, k as nat);
            assert(c * (n - k) == (n - k) * c) by (nonlinear_arith);
            assert(((k + 1) * next) / (k + 1) == next) by (nonlinear_arith)
                requires
                    k + 1 > 0,
            ;
        }
        let product: u64 = match c.checked_mul((n - k) as u64) {
            Some(p) => p,
            None => {
                assert(!combos_fit(m)) by {
                    assert(((k + 1) as nat) * binomial(m, (k + 1) as nat) > u64::MAX);
                }
                return None;
            },
        };
        c = product / (k + 1) as u64;
        sum = match sum.checked_add(c) {
            Some(s) => s,
            None => {
                assert(!combos_fit(m)) by {
                    let j = (k + 1) as nat;
                    assert(binomial(m, j) == c);
                    assert(combo_count(m, j) > u64::MAX);
                }
                return None;
            },
        };
        k += 1;
    }
    Some(sum)
}

/// The number of store combinations that an exhaustive search of the candidates tries.
pub fn exhaustive_combo_total(candidates: &Vec<usize>) -> (count: u64)
    requires
        combos_fit(candidates@.len()),
    ensures
        count == combo_count(candidates@.len(), most_stores(candidates@.len())),
{
    match try_combo_total(candidates) {
        Some(count) => count,
        None => vstd::pervasive::unreached(),
    }
}

} // verus!
