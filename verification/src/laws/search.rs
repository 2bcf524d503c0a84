//! What the local search leaves behind.

use crate::sums::{lemma_total_bounds, total};
use crate::wizard::model::{Strategy, WizardConfig, WizardInput};
use crate::wizard::neighbor::{
    can_merge, can_swap, clearing_move, local_optimum, merged, plain_move, swapped,
};
use crate::wizard::score::{bought_at, is_at, score, store_count, valid_choice, valid_choices};
use crate::wizard::scored::{fitted, score_change};
use crate::wizard::search::{
    after_round, best_gain, consolidated, due, filled, first_lowest, gain_of, gathers, greedy_tops,
    moved, next_store, open_flags, perturb_percent, perturb_size, with_gain, SearchState,
};
use vstd::prelude::*;

verus! {

/// The card is bought at the store.
pub open spec fn buys_at(input: &WizardInput, ch: Seq<Option<usize>>, ci: int, si: int) -> bool {
    &&& 0 <= ci < ch.len()
    &&& ch[ci] matches Some(oi) && input.cards@[ci].options@[oi as int].store_idx == si
}

/// The listing is the cheapest of the card at the store, and the first of those.
pub open spec fn lowest_there(input: &WizardInput, ci: int, si: int, choice: Option<usize>) -> bool {
    choice matches Some(oi) && {
        let opts = input.cards@[ci].options@;
        &&& oi < opts.len()
        &&& opts[oi as int].store_idx == si
        &&& forall|k: int|
            0 <= k < opts.len() && (#[trigger] opts[k]).store_idx == si ==> opts[oi as int].price
                <= opts[k].price && oi <= k
    }
}

/// A store's cards are counted one by one.
pub proof fn law_cards_per_store(input: &WizardInput, ch: Seq<Option<usize>>, si: int)
    ensures
        store_count(input, ch, si) == Seq::new(ch.len(), |ci: int| ci).filter(
            |ci: int| buys_at(input, ch, ci, si),
        ).len(),
{
    lemma_cards_below(input, ch, si, ch.len() as int);
    assert(bought_at(input, ch, si).take(ch.len() as int) =~= bought_at(input, ch, si));
}

proof fn lemma_cards_below(input: &WizardInput, ch: Seq<Option<usize>>, si: int, k: int)
    requires
        0 <= k <= ch.len(),
    ensures
        total(bought_at(input, ch, si).take(k)) == Seq::new(k as nat, |ci: int| ci).filter(
            |ci: int| buys_at(input, ch, ci, si),
        ).len(),
    decreases k,
{
    reveal(Seq::filter);
    let all = Seq::new(k as nat, |ci: int| ci);
    if k > 0 {
        lemma_cards_below(input, ch, si, k - 1);
        assert(all.drop_last() =~= Seq::new((k - 1) as nat, |ci: int| ci));
        assert(bought_at(input, ch, si).take(k).drop_last() =~= bought_at(input, ch, si).take(
            k - 1,
        ));
    }
}

proof fn lemma_in_use(input: &WizardInput, ch: Seq<Option<usize>>, ci: int, si: int)
    requires
        buys_at(input, ch, ci, si),
    ensures
        store_count(input, ch, si) > 0,
{
    let b = bought_at(input, ch, si);
    lemma_total_bounds(b, 1);
    assert(b[ci] == 1);
}

proof fn lemma_lowest(input: &WizardInput, ci: int, si: int, choice: Option<usize>)
    requires
        input.wf(),
        0 <= ci < input.n_cards(),
        0 <= si < input.stores(),
        lowest_there(input, ci, si, choice),
        input.cards@[ci].options@[choice->0 as int].price < u32::MAX,
    ensures
        input.cheapest(ci, si) == choice,
        input.cheapest_price(ci, si) == input.cards@[ci].options@[choice->0 as int].price,
{
    assert(input.cell_ok(ci, si));
    let opts = input.options(ci);
    let oi = choice->0;
    assert(opts[oi as int].store_idx == si);
    let k = input.option_indices@[input.cell(ci, si)];
    if k < oi {
        assert(opts[k as int].store_idx == si);
    }
}

/// Where the local search stops, skipping a card that is bought does not help.
pub proof fn law_no_skip_helps(
    input: &WizardInput,
    config: &WizardConfig,
    ch: Seq<Option<usize>>,
    ci: int,
)
    requires
        local_optimum(input, config, ch),
        0 <= ci < ch.len(),
    ensures
        score(input, config, ch.update(ci, None)) >= score(input, config, ch),
{
    if ch[ci] is Some {
        assert(plain_move(input, ch, ci, None));
        assert(score_change(input, config, ch, ci, None) >= 0);
    } else {
        assert(ch.update(ci, None) =~= ch);
    }
}

/// Where the local search stops, no card is better bought at the cheapest listing
/// of another store, nor one that was skipped at any store's cheapest listing.
pub proof fn law_no_cheapest_listing_helps(
    input: &WizardInput,
    config: &WizardConfig,
    ch: Seq<Option<usize>>,
    ci: int,
    si: int,
    oi: usize,
)
    requires
        input.wf(),
        valid_choices(input, ch),
        local_optimum(input, config, ch),
        0 <= ci < ch.len(),
        0 <= si < input.store_names@.len(),
        !buys_at(input, ch, ci, si),
        lowest_there(input, ci, si, Some(oi)),
        input.cards@[ci].options@[oi as int].price < u32::MAX,
    ensures
        score(input, config, ch.update(ci, Some(oi))) >= score(input, config, ch),
{
    lemma_lowest(input, ci, si, Some(oi));
    assert(plain_move(input, ch, ci, Some(oi)));
    assert(score_change(input, config, ch, ci, Some(oi)) >= 0);
}

/// Where the local search stops, no card is better bought for less at the store
/// where it is bought.
pub proof fn law_no_cheaper_copy_helps(
    input: &WizardInput,
    config: &WizardConfig,
    ch: Seq<Option<usize>>,
    ci: int,
    si: int,
    oi: usize,
)
    requires
        input.wf(),
        valid_choices(input, ch),
        local_optimum(input, config, ch),
        0 <= si < input.store_names@.len(),
        buys_at(input, ch, ci, si),
        lowest_there(input, ci, si, Some(oi)),
        input.cards@[ci].options@[oi as int].price
            < input.cards@[ci].options@[ch[ci]->0 as int].price,
    ensures
        score(input, config, ch.update(ci, Some(oi))) >= score(input, config, ch),
{
    lemma_lowest(input, ci, si, Some(oi));
    assert(plain_move(input, ch, ci, Some(oi)));
    assert(score_change(input, config, ch, ci, Some(oi)) >= 0);
}

/// Where the local search stops, no card of a store with one or two cards is better
/// bought at any listing elsewhere.
pub proof fn law_no_clearing_helps(
    input: &WizardInput,
    config: &WizardConfig,
    ch: Seq<Option<usize>>,
    ci: int,
    from: int,
    oi: usize,
)
    requires
        local_optimum(input, config, ch),
        0 <= from < input.store_names@.len(),
        buys_at(input, ch, ci, from),
        store_count(input, ch, from) <= 2,
        oi < input.cards@[ci].options@.len(),
        input.cards@[ci].options@[oi as int].store_idx != from,
    ensures
        score(input, config, ch.update(ci, Some(oi))) >= score(input, config, ch),
{
    lemma_in_use(input, ch, ci, from);
    assert(valid_choice(input, ci, Some(oi)));
    assert(clearing_move(input, ch, ci, from, Some(oi)));
    assert(score_change(input, config, ch, ci, Some(oi)) >= 0);
}

/// Where the local search for the lowest cost stops, no two cards of stores with at
/// most ten cards each are better bought at each other's store.
pub proof fn law_no_swap_helps(
    input: &WizardInput,
    config: &WizardConfig,
    ch: Seq<Option<usize>>,
    ci: int,
    si: int,
    oi: usize,
    cj: int,
    sj: int,
    oj: usize,
)
    requires
        input.wf(),
        valid_choices(input, ch),
        local_optimum(input, config, ch),
        config.strategy == Strategy::Cheapest,
        0 <= si < sj < input.store_names@.len(),
        buys_at(input, ch, ci, si),
        buys_at(input, ch, cj, sj),
        store_count(input, ch, si) <= 10,
        store_count(input, ch, sj) <= 10,
        lowest_there(input, ci, sj, Some(oi)),
        lowest_there(input, cj, si, Some(oj)),
        input.cards@[ci].options@[oi as int].price < u32::MAX,
        input.cards@[cj].options@[oj as int].price < u32::MAX,
    ensures
        score(input, config, ch.update(ci, Some(oi)).update(cj, Some(oj))) >= score(
            input,
            config,
            ch,
        ),
{
    lemma_lowest(input, ci, sj, Some(oi));
    lemma_lowest(input, cj, si, Some(oj));
    assert(can_swap(input, ch, ci, si, cj, sj));
    assert(swapped(input, ch, ci, si, cj, sj) == ch.update(ci, Some(oi)).update(cj, Some(oj)));
}

/// `b` is `a` with all cards of store `from` bought at store `to`, each at its
/// cheapest listing there.
pub open spec fn emptied_into(
    input: &WizardInput,
    a: Seq<Option<usize>>,
    b: Seq<Option<usize>>,
    from: int,
    to: int,
) -> bool {
    &&& a.len() == b.len()
    &&& forall|ci: int|
        0 <= ci < a.len() ==> if buys_at(input, a, ci, from) {
            lowest_there(input, ci, to, #[trigger] b[ci])
                && input.cards@[ci].options@[b[ci]->0 as int].price < u32::MAX
        } else {
            b[ci] == a[ci]
        }
}

/// Where the local search stops, no store in use is better emptied into another one
/// in use.
pub proof fn law_no_merge_helps(
    input: &WizardInput,
    config: &WizardConfig,
    ch: Seq<Option<usize>>,
    b: Seq<Option<usize>>,
    from: int,
    ci: int,
    to: int,
    cj: int,
)
    requires
        input.wf(),
        valid_choices(input, ch),
        local_optimum(input, config, ch),
        0 <= from < input.store_names@.len(),
        0 <= to < input.store_names@.len(),
        from != to,
        buys_at(input, ch, ci, from),
        buys_at(input, ch, cj, to),
        emptied_into(input, ch, b, from, to),
    ensures
        score(input, config, b) >= score(input, config, ch),
{
    lemma_in_use(input, ch, ci, from);
    lemma_in_use(input, ch, cj, to);
    assert forall|c: int| 0 <= c < ch.len() && #[trigger] is_at(input, c, ch[c], from) implies
        input.cheapest(c, to) == b[c] && b[c] is Some by {
        assert(buys_at(input, ch, c, from));
        assert(lowest_there(input, c, to, b[c]));
        lemma_lowest(input, c, to, b[c]);
    }
    assert(can_merge(input, ch, from, to));
    let m = merged(input, ch, from, to);
    assert forall|c: int| 0 <= c < ch.len() implies #[trigger] m[c] == b[c] by {
        if is_at(input, c, ch[c], from) {
            assert(input.cheapest(c, to) == b[c]);
        } else {
            assert(!buys_at(input, ch, c, from));
            assert(b[c] == ch[c]);
        }
    }
    assert(m =~= b);
}

/// A round keeps its outcome exactly where that scores lower; the search ends after
/// twelve rounds, or three in a row without a better outcome.
pub proof fn law_rounds(
    input: &WizardInput,
    config: &WizardConfig,
    s: SearchState,
    top: Seq<Option<usize>>,
)
    requires
        due(s),
    ensures
        s.round < 12 && s.no_improve < 3,
        ({
            let t = after_round(input, config, s, top);
            &&& t.round == s.round + 1
            &&& score(input, config, t.best) <= score(input, config, s.best)
            &&& score(input, config, t.best) <= score(input, config, top)
            &&& t.best == s.best || t.best == top
            &&& score(input, config, top) >= score(input, config, s.best) ==> t.best == s.best
                && t.no_improve == s.no_improve + 1
            &&& score(input, config, top) < score(input, config, s.best) ==> t.best == top
                && t.no_improve == 0
            &&& t.round < 12 && t.no_improve < 3 ==> due(t)
        }),
{
}

/// Only the search for the fewest stores empties stores between climbs, every other
/// round from the first.
pub proof fn law_rounds_that_empty_a_store(config: &WizardConfig, s: SearchState)
    ensures
        gathers(config, s) ==> config.strategy == Strategy::Simplest,
        config.strategy == Strategy::Simplest && s.round == 0 ==> gathers(config, s),
        config.strategy == Strategy::Simplest && s.round < u32::MAX ==> gathers(config, s)
            != gathers(config, SearchState { round: (s.round + 1) as u32, ..s }),
{
}

/// A perturbation moves the smallest number of cards that makes up half of them at
/// tolerance 0, two fifths at tolerance 1, and three tenths above.
pub proof fn law_share_of_moved_cards(n: int, tolerance: int)
    requires
        0 <= n,
        0 <= tolerance,
    ensures
        ({
            let k = perturb_size(n, perturb_percent(tolerance));
            &&& 0 <= k <= n
            &&& tolerance == 0 ==> n <= 2 * k < n + 2
            &&& tolerance == 1 ==> 2 * n <= 5 * k < 2 * n + 5
            &&& tolerance >= 2 ==> 3 * n <= 10 * k < 3 * n + 10
        }),
{
}

/// A perturbation changes the choice of the picked cards that have a listing, and
/// of no others.
pub proof fn law_moved_cards(
    input: &WizardInput,
    before: Seq<Option<usize>>,
    after: Seq<Option<usize>>,
    picks: Seq<usize>,
    ci: int,
)
    requires
        moved(input, before, after, picks),
        0 <= ci < input.cards@.len() <= usize::MAX,
    ensures
        picks.no_duplicates(),
        !picks.contains(ci as usize) ==> after[ci] == before[ci],
        picks.contains(ci as usize) && input.cards@[ci].options@.len() > 0 ==> after[ci]
            != before[ci],
{
    assert(after[ci] != before[ci] <==> picks.contains(ci as usize) && input.options(ci).len() > 0);
}

/// Emptying a store moves its cards to their cheapest listings elsewhere, the first
/// of them, and leaves every other choice as it was.
pub proof fn law_emptied_store(
    input: &WizardInput,
    ch: Seq<Option<usize>>,
    from: int,
    ci: int,
    k: int,
)
    requires
        input.wf(),
        valid_choices(input, ch),
        0 <= ci < ch.len(),
    ensures
        consolidated(input, ch, from).len() == ch.len(),
        !buys_at(input, ch, ci, from) ==> consolidated(input, ch, from)[ci] == ch[ci],
        buys_at(input, ch, ci, from) && 0 <= k < input.cards@[ci].options@.len()
            && input.cards@[ci].options@[k].store_idx != from ==> (consolidated(
            input,
            ch,
            from,
        )[ci] matches Some(oi) && oi < input.cards@[ci].options@.len()
            && input.cards@[ci].options@[oi as int].store_idx != from && oi <= k
            && input.cards@[ci].options@[oi as int].price <= input.cards@[ci].options@[k].price),
{
    let opts = input.options(ci);
    if buys_at(input, ch, ci, from) && 0 <= k < opts.len() && opts[k].store_idx != from {
        assert(input.card_ok(ci));
        lemma_first_elsewhere(input, ci, from, 0, k);
        assert(is_at(input, ci, ch[ci], from));
    }
}

proof fn lemma_first_elsewhere(input: &WizardInput, ci: int, from: int, at: int, k: int)
    requires
        0 <= at <= k < input.options(ci).len() <= usize::MAX,
        input.options(ci)[k].store_idx != from,
    ensures
        crate::wizard::search::first_elsewhere(input, ci, from, at) matches Some(oi) && at <= oi
            <= k && input.options(ci)[oi as int].store_idx != from,
    decreases k - at,
{
    if input.options(ci)[at].store_idx == from {
        lemma_first_elsewhere(input, ci, from, at + 1, k);
    }
}

/// What a store adds is the number of cards without a choice that it lists.
pub proof fn law_gain(input: &WizardInput, ch: Seq<Option<usize>>, si: int)
    ensures
        gain_of(input, ch, si) == input.store_cards@[si]@.filter(
            |ci: usize| ch[ci as int] is None,
        ).len(),
{
    let listed = input.store_cards@[si]@;
    lemma_gain(input, ch, si, listed.len() as int);
    assert(open_flags(input, ch, si).take(listed.len() as int) =~= open_flags(input, ch, si));
    assert(listed.take(listed.len() as int) =~= listed);
}

proof fn lemma_gain(input: &WizardInput, ch: Seq<Option<usize>>, si: int, k: int)
    requires
        0 <= k <= input.store_cards@[si]@.len(),
    ensures
        total(open_flags(input, ch, si).take(k)) == input.store_cards@[si]@.take(k).filter(
            |ci: usize| ch[ci as int] is None,
        ).len(),
    decreases k,
{
    reveal(Seq::filter);
    if k > 0 {
        let flags = open_flags(input, ch, si);
        let listed = input.store_cards@[si]@;
        lemma_gain(input, ch, si, k - 1);
        assert(flags.take(k).drop_last() =~= flags.take(k - 1));
        assert(listed.take(k).drop_last() =~= listed.take(k - 1));
    }
}

proof fn lemma_best_gain(
    input: &WizardInput,
    ch: Seq<Option<usize>>,
    picked: Seq<bool>,
    k: int,
    si: int,
)
    requires
        0 <= si < k,
        !picked[si],
    ensures
        gain_of(input, ch, si) <= best_gain(input, ch, picked, k),
    decreases k,
{
    if si < k - 1 {
        lemma_best_gain(input, ch, picked, k - 1, si);
    }
}

proof fn lemma_with_gain(
    input: &WizardInput,
    ch: Seq<Option<usize>>,
    picked: Seq<bool>,
    gain: int,
    k: int,
)
    requires
        0 <= k <= input.stores() <= usize::MAX,
    ensures
        forall|i: int|
            0 <= i < with_gain(input, ch, picked, gain, k).len() ==> {
                let si = #[trigger] with_gain(input, ch, picked, gain, k)[i];
                si < k && !picked[si as int] && gain_of(input, ch, si as int) == gain
            },
    decreases k,
{
    if k > 0 {
        lemma_with_gain(input, ch, picked, gain, k - 1);
        let rest = with_gain(input, ch, picked, gain, k - 1);
        let all = with_gain(input, ch, picked, gain, k);
        assert forall|i: int| 0 <= i < all.len() implies {
            let si = #[trigger] all[i];
            si < k && !picked[si as int] && gain_of(input, ch, si as int) == gain
        } by {
            if i < rest.len() {
                assert(all[i] == rest[i]);
            }
        }
    }
}

/// The next store of a greedy start adds something, and none that was not picked
/// yet adds more.
pub proof fn law_greedy_picks_the_most_useful(
    input: &WizardInput,
    seed: usize,
    ch: Seq<Option<usize>>,
    picked: Seq<bool>,
    other: int,
)
    requires
        input.wf(),
        0 <= other < input.store_names@.len(),
        !picked[other],
    ensures
        next_store(input, seed, ch, picked) matches Some(si) ==> {
            &&& si < input.store_names@.len()
            &&& !picked[si as int]
            &&& gain_of(input, ch, si as int) > 0
            &&& gain_of(input, ch, other) <= gain_of(input, ch, si as int)
        },
        gain_of(input, ch, other) > 0 ==> next_store(input, seed, ch, picked) is Some,
{
    let m = input.stores() as int;
    let gain = best_gain(input, ch, picked, m);
    lemma_best_gain(input, ch, picked, m, other);
    lemma_with_gain(input, ch, picked, gain, m);
    let ties = with_gain(input, ch, picked, gain, m);
    if gain > 0 {
        lemma_some_tie(input, ch, picked, gain, m);
        let n = ties.len() as int;
        let x = seed as int;
        assert(0 <= x % n && x % n < n) by (nonlinear_arith)
            requires
                n > 0,
        ;
    }
}

proof fn lemma_some_tie(
    input: &WizardInput,
    ch: Seq<Option<usize>>,
    picked: Seq<bool>,
    gain: int,
    k: int,
)
    requires
        gain == best_gain(input, ch, picked, k),
        gain > 0,
    ensures
        with_gain(input, ch, picked, gain, k).len() > 0,
    decreases k,
{
    if !picked[k - 1] && gain_of(input, ch, k - 1) == gain {
    } else {
        lemma_some_tie(input, ch, picked, gain, k - 1);
    }
}

/// A picked store sells every card without a choice that it carries, at its
/// cheapest there; the other choices stay.
pub proof fn law_picked_store_sells(input: &WizardInput, ch: Seq<Option<usize>>, si: int, ci: int)
    requires
        0 <= ci < ch.len(),
    ensures
        filled(input, ch, si).len() == ch.len(),
        ch[ci] is Some ==> filled(input, ch, si)[ci] == ch[ci],
        ch[ci] is None ==> filled(input, ch, si)[ci] == input.cheapest(ci, si),
{
}

/// Fifty greedy starts are climbed from.
pub proof fn law_fifty_starts(
    input: &WizardInput,
    config: &WizardConfig,
    tops: Seq<Seq<Option<usize>>>,
)
    requires
        greedy_tops(input, config, tops),
    ensures
        tops.len() == 50,
{
}

/// Of several assignments, the first of those with the lowest score is taken.
pub proof fn law_lowest_of_several(
    input: &WizardInput,
    config: &WizardConfig,
    list: Seq<Seq<Option<usize>>>,
    ch: Seq<Option<usize>>,
    k: int,
)
    requires
        first_lowest(input, config, list, ch),
        0 <= k < list.len(),
    ensures
        list.contains(ch),
        score(input, config, ch) <= score(input, config, list[k]),
{
}

/// Of two assignments, the one that scores lower is taken, the first where they are
/// level.
pub proof fn law_lower_of_two(
    input: &WizardInput,
    config: &WizardConfig,
    a: Seq<Option<usize>>,
    b: Seq<Option<usize>>,
)
    ensures
        ({
            let c = crate::wizard::search::lower(input, config, a, b);
            &&& c == a || c == b
            &&& score(input, config, c) <= score(input, config, a)
            &&& score(input, config, c) <= score(input, config, b)
            &&& score(input, config, a) == score(input, config, b) ==> c == a
        }),
{
}

/// Choices from elsewhere are kept where they are valid, and are skips else; there
/// is one for every card.
pub proof fn law_fitted_choices(input: &WizardInput, raw: Seq<Option<usize>>, ci: int)
    requires
        0 <= ci < input.cards@.len(),
    ensures
        fitted(input, raw).len() == input.cards@.len(),
        ci >= raw.len() ==> fitted(input, raw)[ci] is None,
        ci < raw.len() && raw[ci] is None ==> fitted(input, raw)[ci] is None,
        ci < raw.len() ==> (raw[ci] matches Some(oi) ==> {
            &&& oi < input.cards@[ci].options@.len() ==> fitted(input, raw)[ci] == Some(oi)
            &&& oi >= input.cards@[ci].options@.len() ==> fitted(input, raw)[ci] is None
        }),
{
}

} // verus!
