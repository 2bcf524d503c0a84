//! Neighbouring assignments and hill climbing.

use crate::wizard::model::{Strategy, WizardConfig, WizardInput};
use crate::wizard::score::{is_at, lemma_member, price_of, score, store_count, valid_choice};
use crate::wizard::scored::{
    card_listed, entry_ok, lemma_score_bound, lemma_spread_ok, relisted, score_change, spread_ok,
    ScoredAssignment, Spread,
};
use vstd::prelude::*;

verus! {

/// Stores with more cards than this take no part in swaps.
pub const SWAP_MAX_PER_STORE: usize = 10;

/// A store with this many cards or fewer is small: each of its cards is offered
/// to every other listing.
pub const SMALL_STORE: usize = 2;

/// Choosing listing `oi` of card `ci` is worth trying: it is as cheap as its store
/// gets for the card, and it is not a same-store choice that saves nothing.
pub open spec fn worth_listing(
    input: &WizardInput,
    ch: Seq<Option<usize>>,
    ci: int,
    oi: usize,
) -> bool {
    let opt = input.options(ci)[oi as int];
    &&& oi < input.options(ci).len()
    &&& ch[ci] != Some(oi)
    &&& opt.price <= input.cheapest_price(ci, opt.store_idx as int)
    &&& is_at(input, ci, ch[ci], opt.store_idx as int) ==> opt.price < price_of(input, ci, ch[ci])
}

/// Moves of a single card that every neighbourhood holds: to a listing that is
/// worth trying, or from a listing to a skip.
pub open spec fn plain_move(
    input: &WizardInput,
    ch: Seq<Option<usize>>,
    ci: int,
    new: Option<usize>,
) -> bool {
    &&& 0 <= ci < ch.len()
    &&& match new {
        Some(oi) => worth_listing(input, ch, ci, oi),
        None => ch[ci] is Some,
    }
}

/// Moves of a card out of a small store: to any listing elsewhere, or to a skip.
pub open spec fn clearing_move(
    input: &WizardInput,
    ch: Seq<Option<usize>>,
    ci: int,
    from: int,
    new: Option<usize>,
) -> bool {
    &&& 0 <= ci < ch.len()
    &&& 0 <= from < input.stores()
    &&& is_at(input, ci, ch[ci], from)
    &&& 1 <= store_count(input, ch, from) <= SMALL_STORE
    &&& valid_choice(input, ci, new)
    &&& !is_at(input, ci, new, from)
}

/// All cards of store `from` bought at store `to` instead, each at its cheapest listing there.
pub open spec fn merged(
    input: &WizardInput,
    ch: Seq<Option<usize>>,
    from: int,
    to: int,
) -> Seq<Option<usize>> {
    Seq::new(
        ch.len(),
        |ci: int|
            if is_at(input, ci, ch[ci], from) {
                input.cheapest(ci, to)
            } else {
                ch[ci]
            },
    )
}

/// Store `to` carries every card that is bought at store `from`, and both are in use.
pub open spec fn can_merge(
    input: &WizardInput,
    ch: Seq<Option<usize>>,
    from: int,
    to: int,
) -> bool {
    &&& 0 <= from < input.stores()
    &&& 0 <= to < input.stores()
    &&& from != to
    &&& store_count(input, ch, from) > 0
    &&& store_count(input, ch, to) > 0
    &&& forall|ci: int|
        0 <= ci < ch.len() && #[trigger] is_at(input, ci, ch[ci], from) ==> input.cheapest(
            ci,
            to,
        ) is Some
}

/// Two cards at different stores trade stores, each at its cheapest listing there.
pub open spec fn swapped(
    input: &WizardInput,
    ch: Seq<Option<usize>>,
    ci: int,
    si: int,
    cj: int,
    sj: int,
) -> Seq<Option<usize>> {
    ch.update(ci, input.cheapest(ci, sj)).update(cj, input.cheapest(cj, si))
}

pub open spec fn can_swap(
    input: &WizardInput,
    ch: Seq<Option<usize>>,
    ci: int,
    si: int,
    cj: int,
    sj: int,
) -> bool {
    &&& 0 <= ci < ch.len()
    &&& 0 <= cj < ch.len()
    &&& 0 <= si < sj < input.stores()
    &&& is_at(input, ci, ch[ci], si)
    &&& is_at(input, cj, ch[cj], sj)
    &&& store_count(input, ch, si) <= SWAP_MAX_PER_STORE
    &&& store_count(input, ch, sj) <= SWAP_MAX_PER_STORE
    &&& input.cheapest(ci, sj) is Some
    &&& input.cheapest(cj, si) is Some
}

pub open spec fn by_plain(input: &WizardInput, a: Seq<Option<usize>>, b: Seq<Option<usize>>) -> bool {
    exists|ci: int, new: Option<usize>| #[trigger]
        plain_move(input, a, ci, new) && b == a.update(ci, new)
}

pub open spec fn by_clearing(input: &WizardInput, a: Seq<Option<usize>>, b: Seq<Option<usize>>) -> bool {
    exists|ci: int, from: int, new: Option<usize>| #[trigger]
        clearing_move(input, a, ci, from, new) && b == a.update(ci, new)
}

pub open spec fn by_swap(input: &WizardInput, a: Seq<Option<usize>>, b: Seq<Option<usize>>) -> bool {
    exists|ci: int, si: int, cj: int, sj: int| #[trigger]
        can_swap(input, a, ci, si, cj, sj) && b == swapped(input, a, ci, si, cj, sj)
}

pub open spec fn by_merge(input: &WizardInput, a: Seq<Option<usize>>, b: Seq<Option<usize>>) -> bool {
    exists|from: int, to: int| #[trigger]
        can_merge(input, a, from, to) && b == merged(input, a, from, to)
}

/// `b` is one step away from `a`: one card moved, two cards swapped (only when
/// minimizing cost), or one store emptied into another.
pub open spec fn neighbor(
    input: &WizardInput,
    config: &WizardConfig,
    a: Seq<Option<usize>>,
    b: Seq<Option<usize>>,
) -> bool {
    ||| by_plain(input, a, b)
    ||| by_clearing(input, a, b)
    ||| config.strategy == Strategy::Cheapest && by_swap(input, a, b)
    ||| by_merge(input, a, b)
}

/// No plain move changes the score to below `bar`.
pub open spec fn plain_bar(
    input: &WizardInput,
    config: &WizardConfig,
    ch: Seq<Option<usize>>,
    bar: int,
) -> bool {
    forall|ci: int, new: Option<usize>| #[trigger]
        plain_move(input, ch, ci, new) ==> score(input, config, ch) + score_change(
            input,
            config,
            ch,
            ci,
            new,
        ) >= bar
}

/// No move out of a small store changes the score to below `bar`.
pub open spec fn clearing_bar(
    input: &WizardInput,
    config: &WizardConfig,
    ch: Seq<Option<usize>>,
    bar: int,
) -> bool {
    forall|ci: int, from: int, new: Option<usize>| #[trigger]
        clearing_move(input, ch, ci, from, new) ==> score(input, config, ch) + score_change(
            input,
            config,
            ch,
            ci,
            new,
        ) >= bar
}

/// No merge of two stores scores below `bar`.
pub open spec fn merge_bar(
    input: &WizardInput,
    config: &WizardConfig,
    ch: Seq<Option<usize>>,
    bar: int,
) -> bool {
    forall|from: int, to: int| #[trigger]
        can_merge(input, ch, from, to) ==> score(input, config, merged(input, ch, from, to)) >= bar
}

/// No swap of two cards scores below `bar`.
pub open spec fn swap_bar(
    input: &WizardInput,
    config: &WizardConfig,
    ch: Seq<Option<usize>>,
    bar: int,
) -> bool {
    forall|ci: int, si: int, cj: int, sj: int| #[trigger]
        can_swap(input, ch, ci, si, cj, sj) ==> score(
            input,
            config,
            swapped(input, ch, ci, si, cj, sj),
        ) >= bar
}

/// No neighbour scores below `bar`: no move of a single card, no swap of two
/// cards (only when minimizing cost) and no merge of two stores.
pub open spec fn floor_at(
    input: &WizardInput,
    config: &WizardConfig,
    ch: Seq<Option<usize>>,
    bar: int,
) -> bool {
    &&& plain_bar(input, config, ch, bar)
    &&& clearing_bar(input, config, ch, bar)
    &&& config.strategy == Strategy::Cheapest ==> swap_bar(input, config, ch, bar)
    &&& merge_bar(input, config, ch, bar)
}

/// No neighbour improves the assignment.
pub open spec fn local_optimum(
    input: &WizardInput,
    config: &WizardConfig,
    ch: Seq<Option<usize>>,
) -> bool {
    floor_at(input, config, ch, score(input, config, ch))
}

// Neighbours in the order in which they are looked at

/// Moves of card `ci` to those of its first `k` listings that are worth trying.
pub open spec fn listing_moves(input: &WizardInput, s: Spread, ci: int, k: int) -> Seq<Spread>
    decreases k,
{
    if k <= 0 {
        Seq::empty()
    } else {
        let rest = listing_moves(input, s, ci, k - 1);
        let oi = (k - 1) as usize;
        if worth_listing(input, s.choices, ci, oi) {
            rest.push(relisted(input, s, ci, Some(oi)))
        } else {
            rest
        }
    }
}

/// The plain moves of the first `k` cards: listing by listing, then the skip.
pub open spec fn plain_moves(input: &WizardInput, s: Spread, k: int) -> Seq<Spread>
    decreases k,
{
    if k <= 0 {
        Seq::empty()
    } else {
        let ci = k - 1;
        let moves = plain_moves(input, s, ci) + listing_moves(
            input,
            s,
            ci,
            input.options(ci).len() as int,
        );
        if s.choices[ci] is Some {
            moves.push(relisted(input, s, ci, None))
        } else {
            moves
        }
    }
}

/// Card `ci` goes to listing `oi` at store `sj`, and one of the first `k` cards
/// there comes to store `si`.
pub open spec fn second_moves(
    input: &WizardInput,
    s: Spread,
    ci: int,
    oi: usize,
    si: int,
    sj: int,
    k: int,
) -> Seq<Spread>
    decreases k,
{
    if k <= 0 {
        Seq::empty()
    } else {
        let rest = second_moves(input, s, ci, oi, si, sj, k - 1);
        let cj = s.at[sj][k - 1] as int;
        match input.cheapest(cj, si) {
            Some(oj) => rest.push(
                relisted(input, relisted(input, s, ci, Some(oi)), cj, Some(oj)),
            ),
            None => rest,
        }
    }
}

/// Swaps of the first `k` cards of store `si` with cards of store `sj`.
pub open spec fn swaps_of(input: &WizardInput, s: Spread, si: int, sj: int, k: int) -> Seq<Spread>
    decreases k,
{
    if k <= 0 {
        Seq::empty()
    } else {
        let rest = swaps_of(input, s, si, sj, k - 1);
        let ci = s.at[si][k - 1] as int;
        match input.cheapest(ci, sj) {
            Some(oi) => rest + second_moves(
                input,
                s,
                ci,
                oi,
                si,
                sj,
                s.at[sj].len() as int,
            ),
            None => rest,
        }
    }
}

/// The store is used, and small enough to take part in swaps.
pub open spec fn takes_swaps(input: &WizardInput, s: Spread, si: int) -> bool {
    1 <= store_count(input, s.choices, si) <= SWAP_MAX_PER_STORE
}

/// Swaps of store `si` with the stores behind it, below `k`.
pub open spec fn swaps_with(input: &WizardInput, s: Spread, si: int, k: int) -> Seq<Spread>
    decreases k - si,
{
    if k <= si + 1 {
        Seq::empty()
    } else {
        let rest = swaps_with(input, s, si, k - 1);
        if takes_swaps(input, s, k - 1) {
            rest + swaps_of(input, s, si, k - 1, s.at[si].len() as int)
        } else {
            rest
        }
    }
}

/// Swaps of the first `k` stores with the stores behind them.
pub open spec fn swap_moves(input: &WizardInput, s: Spread, k: int) -> Seq<Spread>
    decreases k,
{
    if k <= 0 {
        Seq::empty()
    } else {
        let rest = swap_moves(input, s, k - 1);
        if takes_swaps(input, s, k - 1) {
            rest + swaps_with(input, s, k - 1, input.stores() as int)
        } else {
            rest
        }
    }
}

/// Moves of card `ci` to those of its first `k` listings that are not at store `from`.
pub open spec fn moves_away(
    input: &WizardInput,
    s: Spread,
    ci: int,
    from: int,
    k: int,
) -> Seq<Spread>
    decreases k,
{
    if k <= 0 {
        Seq::empty()
    } else {
        let rest = moves_away(input, s, ci, from, k - 1);
        if input.options(ci)[k - 1].store_idx != from {
            rest.push(relisted(input, s, ci, Some((k - 1) as usize)))
        } else {
            rest
        }
    }
}

/// Moves of the first `k` cards of store `from` elsewhere, or to a skip.
pub open spec fn clearings_of(input: &WizardInput, s: Spread, from: int, k: int) -> Seq<Spread>
    decreases k,
{
    if k <= 0 {
        Seq::empty()
    } else {
        let ci = s.at[from][k - 1] as int;
        (clearings_of(input, s, from, k - 1) + moves_away(
            input,
            s,
            ci,
            from,
            input.options(ci).len() as int,
        )).push(relisted(input, s, ci, None))
    }
}

/// Moves out of the small ones of the first `k` stores.
pub open spec fn clearing_moves(input: &WizardInput, s: Spread, k: int) -> Seq<Spread>
    decreases k,
{
    if k <= 0 {
        Seq::empty()
    } else {
        let rest = clearing_moves(input, s, k - 1);
        if 1 <= store_count(input, s.choices, k - 1) <= SMALL_STORE {
            rest + clearings_of(input, s, k - 1, s.at[k - 1].len() as int)
        } else {
            rest
        }
    }
}

/// The first `k` cards of the list bought at store `to`, one after the other.
pub open spec fn moved_to(
    input: &WizardInput,
    s: Spread,
    list: Seq<usize>,
    to: int,
    k: int,
) -> Spread
    decreases k,
{
    if k <= 0 {
        s
    } else {
        let ci = list[k - 1] as int;
        relisted(input, moved_to(input, s, list, to, k - 1), ci, input.cheapest(ci, to))
    }
}

/// Merges of store `from` into those of the first `k` stores that can take it.
pub open spec fn merges_of(input: &WizardInput, s: Spread, from: int, k: int) -> Seq<Spread>
    decreases k,
{
    if k <= 0 {
        Seq::empty()
    } else {
        let rest = merges_of(input, s, from, k - 1);
        if can_merge(input, s.choices, from, k - 1) {
            rest.push(moved_to(input, s, s.at[from], k - 1, s.at[from].len() as int))
        } else {
            rest
        }
    }
}

/// Merges of the first `k` stores into others.
pub open spec fn merge_moves(input: &WizardInput, s: Spread, k: int) -> Seq<Spread>
    decreases k,
{
    if k <= 0 {
        Seq::empty()
    } else {
        merge_moves(input, s, k - 1) + merges_of(input, s, k - 1, input.stores() as int)
    }
}

/// All neighbours, in the order in which they are looked at: single cards, swaps
/// (only when minimizing cost), cards of small stores, merges.
pub open spec fn neighbors(input: &WizardInput, config: &WizardConfig, s: Spread) -> Seq<Spread> {
    let m = input.stores() as int;
    let single = plain_moves(input, s, input.n_cards() as int);
    let swaps = if config.strategy == Strategy::Cheapest {
        swap_moves(input, s, m)
    } else {
        Seq::empty()
    };
    single + swaps + clearing_moves(input, s, m) + merge_moves(input, s, m)
}

/// The score to beat: that of the best so far, or of `ch`.
pub open spec fn to_beat(
    input: &WizardInput,
    config: &WizardConfig,
    ch: Seq<Option<usize>>,
    best: Option<Spread>,
) -> int {
    match best {
        Some(b) => score(input, config, b.choices),
        None => score(input, config, ch),
    }
}

/// The best so far once `next` was looked at: only a lower score replaces it.
pub open spec fn better_of(
    input: &WizardInput,
    config: &WizardConfig,
    ch: Seq<Option<usize>>,
    best: Option<Spread>,
    next: Spread,
) -> Option<Spread> {
    if score(input, config, next.choices) < to_beat(input, config, ch, best) {
        Some(next)
    } else {
        best
    }
}

/// The best so far once the list was looked at.
pub open spec fn best_of(
    input: &WizardInput,
    config: &WizardConfig,
    ch: Seq<Option<usize>>,
    best: Option<Spread>,
    list: Seq<Spread>,
) -> Option<Spread>
    decreases list.len(),
{
    if list.len() == 0 {
        best
    } else {
        better_of(
            input,
            config,
            ch,
            best_of(input, config, ch, best, list.drop_last()),
            list.last(),
        )
    }
}

/// The first of the best improving neighbours, if any neighbour improves.
pub open spec fn next_step(input: &WizardInput, config: &WizardConfig, s: Spread) -> Option<Spread> {
    best_of(input, config, s.choices, None, neighbors(input, config, s))
}

proof fn lemma_best_of_push(
    input: &WizardInput,
    config: &WizardConfig,
    ch: Seq<Option<usize>>,
    best: Option<Spread>,
    list: Seq<Spread>,
    next: Spread,
)
    ensures
        best_of(input, config, ch, best, list.push(next)) == better_of(
            input,
            config,
            ch,
            best_of(input, config, ch, best, list),
            next,
        ),
{
    assert(list.push(next).drop_last() =~= list);
}

/// Looking at two lists, one after the other.
proof fn lemma_best_of_concat(
    input: &WizardInput,
    config: &WizardConfig,
    ch: Seq<Option<usize>>,
    best: Option<Spread>,
    a: Seq<Spread>,
    b: Seq<Spread>,
)
    ensures
        best_of(input, config, ch, best, a + b) == best_of(
            input,
            config,
            ch,
            best_of(input, config, ch, best, a),
            b,
        ),
    decreases b.len(),
{
    if b.len() == 0 {
        assert(a + b =~= a);
    } else {
        lemma_best_of_concat(input, config, ch, best, a, b.drop_last());
        assert((a + b).drop_last() =~= a + b.drop_last());
        assert((a + b).last() == b.last());
    }
}

/// The first of the best is one of the list, lower than what was to beat, lower
/// than all before it and no higher than all behind it.
pub proof fn law_first_of_the_best(
    input: &WizardInput,
    config: &WizardConfig,
    ch: Seq<Option<usize>>,
    list: Seq<Spread>,
)
    ensures
        match best_of(input, config, ch, None, list) {
            Some(b) => {
                &&& score(input, config, b.choices) < score(input, config, ch)
                &&& exists|i: int|
                    0 <= i < list.len() && #[trigger] list[i] == b && (forall|k: int|
                        0 <= k < i ==> score(input, config, b.choices) < score(
                            input,
                            config,
                            (#[trigger] list[k]).choices,
                        )) && (forall|k: int|
                        i < k < list.len() ==> score(input, config, b.choices) <= score(
                            input,
                            config,
                            (#[trigger] list[k]).choices,
                        ))
            },
            None => forall|k: int|
                0 <= k < list.len() ==> score(input, config, ch) <= score(
                    input,
                    config,
                    (#[trigger] list[k]).choices,
                ),
        },
    decreases list.len(),
{
    if list.len() > 0 {
        let rest = list.drop_last();
        law_first_of_the_best(input, config, ch, rest);
        let last = list[list.len() - 1];
        match best_of(input, config, ch, None, rest) {
            Some(b) => {
                let i = choose|i: int|
                    0 <= i < rest.len() && #[trigger] rest[i] == b && (forall|k: int|
                        0 <= k < i ==> score(input, config, b.choices) < score(
                            input,
                            config,
                            (#[trigger] rest[k]).choices,
                        )) && (forall|k: int|
                        i < k < rest.len() ==> score(input, config, b.choices) <= score(
                            input,
                            config,
                            (#[trigger] rest[k]).choices,
                        ));
                assert(list[i] == b);
                assert forall|k: int| 0 <= k < rest.len() implies score(input, config, b.choices)
                    <= score(input, config, (#[trigger] list[k]).choices) && (k < i ==> score(
                    input,
                    config,
                    b.choices,
                ) < score(input, config, list[k].choices)) by {
                    assert(list[k] == rest[k]);
                }
            },
            None => {
                assert forall|k: int| 0 <= k < rest.len() implies score(input, config, ch) <= score(
                    input,
                    config,
                    (#[trigger] list[k]).choices,
                ) by {
                    assert(list[k] == rest[k]);
                }
            },
        }
        assert(list[list.len() - 1] == last);
    }
}

pub open spec fn shown(best: Option<ScoredAssignment>) -> Option<Spread> {
    match best {
        Some(b) => Some(b.spread()),
        None => None,
    }
}

/// The score to beat: that of the best neighbour so far, or the current one.
pub open spec fn bar_of(best: Option<ScoredAssignment>, current: u64) -> u64 {
    match best {
        Some(b) => b.score,
        None => current,
    }
}

/// The best neighbour so far, if any, is a strict improvement.
pub open spec fn found_ok(
    input: &WizardInput,
    config: &WizardConfig,
    ch: Seq<Option<usize>>,
    best: Option<ScoredAssignment>,
) -> bool {
    best matches Some(b) ==> {
        &&& b.wf(input, config)
        &&& b.score < score(input, config, ch)
        &&& neighbor(input, config, ch, b.choices@)
    }
}

fn bar_at(best: &Option<ScoredAssignment>, current: u64) -> (bar: u64)
    ensures
        bar == bar_of(*best, current),
{
    match best {
        Some(b) => b.score,
        None => current,
    }
}

/// The assignment after a move, if there is one.
spec fn moved_by(
    input: &WizardInput,
    s: Spread,
    by: Option<(usize, Option<usize>)>,
) -> Option<Spread> {
    match by {
        Some((ci, new)) => Some(relisted(input, s, ci as int, new)),
        None => None,
    }
}

/// The first plain move with the lowest change of score, if any move improves.
fn best_single_move(
    current: &ScoredAssignment,
    input: &WizardInput,
    config: &WizardConfig,
) -> (best: Option<(usize, Option<usize>)>)
    requires
        input.wf(),
        current.wf(input, config),
    ensures
        match best {
            Some((ci, new)) => {
                let gain = score_change(input, config, current.choices@, ci as int, new);
                &&& plain_move(input, current.choices@, ci as int, new)
                &&& gain < 0
                &&& plain_bar(input, config, current.choices@, current.score + gain)
            },
            None => plain_bar(input, config, current.choices@, current.score as int),
        },
        best_of(
            input,
            config,
            current.choices@,
            None,
            plain_moves(input, current.spread(), input.n_cards() as int),
        ) == moved_by(input, current.spread(), best),
{
    let ghost s = current.spread();
    let ghost ch = current.choices@;
    let n: usize = input.cards.len();
    let mut best_delta: i64 = 0;
    let mut best: Option<(usize, Option<usize>)> = None;
    let mut ci: usize = 0;
    while ci < n
        invariant
            input.wf(),
            current.wf(input, config),
            ch == current.choices@,
            s == current.spread(),
            n == input.n_cards(),
            ci <= n,
            best_of(input, config, ch, None, plain_moves(input, s, ci as int)) == moved_by(
                input,
                s,
                best,
            ),
            best_delta <= 0,
            match best {
                Some((bi, new)) => plain_move(input, ch, bi as int, new) && best_delta < 0
                    && best_delta == score_change(input, config, ch, bi as int, new),
                None => best_delta == 0,
            },
            forall|k: int, new: Option<usize>|
                k < ci && #[trigger] plain_move(input, ch, k, new) ==> score_change(
                    input,
                    config,
                    ch,
                    k,
                    new,
                ) >= best_delta,
        decreases n - ci,
    {
        let card = &input.cards[ci];
        let cur = current.choices[ci];
        proof {
            assert(input.card_ok(ci as int));
            assert(valid_choice(input, ci as int, ch[ci as int]));
        }
        let mut oi: usize = 0;
        let ghost done = plain_moves(input, s, ci as int);
        assert(done + listing_moves(input, s, ci as int, 0) =~= done);
        while oi < card.options.len()
            invariant
                input.wf(),
                current.wf(input, config),
                ch == current.choices@,
                s == current.spread(),
                best_of(
                    input,
                    config,
                    ch,
                    None,
                    done + listing_moves(input, s, ci as int, oi as int),
                ) == moved_by(input, s, best),
                n == input.n_cards(),
                ci < n,
                *card == input.cards@[ci as int],
                cur == ch[ci as int],
                valid_choice(input, ci as int, cur),
                oi <= card.options@.len(),
                best_delta <= 0,
                match best {
                    Some((bi, new)) => plain_move(input, ch, bi as int, new) && best_delta < 0
                        && best_delta == score_change(input, config, ch, bi as int, new),
                    None => best_delta == 0,
                },
                forall|k: int, new: Option<usize>|
                    k < ci && #[trigger] plain_move(input, ch, k, new) ==> score_change(
                        input,
                        config,
                        ch,
                        k,
                        new,
                    ) >= best_delta,
                forall|o: usize|
                    o < oi && #[trigger] plain_move(input, ch, ci as int, Some(o))
                        ==> score_change(input, config, ch, ci as int, Some(o)) >= best_delta,
            decreases card.options@.len() - oi,
        {
            proof {
                assert(input.card_ok(ci as int));
            }
            let opt = &card.options[oi];
            let at_store: u32 = input.cell_price(ci, opt.store_idx);
            let same: bool = match cur {
                Some(o) => o == oi,
                None => false,
            };
            let no_gain: bool = match cur {
                Some(o) => card.options[o].store_idx == opt.store_idx && opt.price
                    >= card.options[o].price,
                None => false,
            };
            if !same && opt.price <= at_store && !no_gain {
                assert(plain_move(input, ch, ci as int, Some(oi)));
                proof {
                    let list = listing_moves(input, s, ci as int, oi as int);
                    let next = relisted(input, s, ci as int, Some(oi));
                    lemma_best_of_push(input, config, ch, None, done + list, next);
                    assert(done + list.push(next) =~= (done + list).push(next));
                }
                let delta = current.try_single_move_delta(ci, Some(oi), input, config);
                if delta < best_delta {
                    best_delta = delta;
                    best = Some((ci, Some(oi)));
                }
            } else {
                assert(!plain_move(input, ch, ci as int, Some(oi)));
            }
            oi += 1;
        }
        if cur.is_some() {
            assert(plain_move(input, ch, ci as int, None));
            proof {
                let list = done + listing_moves(input, s, ci as int, oi as int);
                lemma_best_of_push(input, config, ch, None, list, relisted(input, s, ci as int, None));
            }
            let delta = current.try_single_move_delta(ci, None, input, config);
            if delta < best_delta {
                best_delta = delta;
                best = Some((ci, None));
            }
        }
        proof {
            assert forall|k: int, new: Option<usize>|
                k < ci + 1 && #[trigger] plain_move(input, ch, k, new) implies score_change(
                input,
                config,
                ch,
                k,
                new,
            ) >= best_delta by {
                if k == ci {
                    match new {
                        Some(o) => {
                            assert(o < input.options(k).len());
                        },
                        None => {},
                    }
                }
            }
        }
        ci += 1;
    }
    best
}

/// The better of `best` and the swaps of two cards between small orders.
fn consider_swaps(
    current: &ScoredAssignment,
    best: Option<ScoredAssignment>,
    input: &WizardInput,
    config: &WizardConfig,
) -> (better: Option<ScoredAssignment>)
    requires
        input.wf(),
        current.wf(input, config),
        config.strategy == Strategy::Cheapest,
        found_ok(input, config, current.choices@, best),
    ensures
        found_ok(input, config, current.choices@, better),
        bar_of(better, current.score) <= bar_of(best, current.score),
        swap_bar(input, config, current.choices@, bar_of(better, current.score) as int),
        shown(better) == best_of(
            input,
            config,
            current.choices@,
            shown(best),
            swap_moves(input, current.spread(), input.stores() as int),
        ),
{
    let ghost s = current.spread();
    let ghost given = shown(best);
    let ghost first = bar_of(best, current.score);
    let ghost ch = current.choices@;
    let m: usize = input.store_names.len();
    let mut scratch = current.duplicate();
    let mut best = best;
    let mut si: usize = 0;
    while si < m
        invariant
            input.wf(),
            current.wf(input, config),
            ch == current.choices@,
            scratch.wf(input, config),
            scratch.choices@ == ch,
            config.strategy == Strategy::Cheapest,
            m == input.stores(),
            si <= m,
            s == current.spread(),
            shown(best) == best_of(input, config, ch, given, swap_moves(input, s, si as int)),
            found_ok(input, config, ch, best),
            bar_of(best, current.score) <= first,
            forall|ci: int, s: int, cj: int, t: int|
                s < si && #[trigger] can_swap(input, ch, ci, s, cj, t) ==> score(
                    input,
                    config,
                    swapped(input, ch, ci, s, cj, t),
                ) >= bar_of(best, current.score),
        decreases m - si,
    {
        proof {
            assert(current.store_card_counts@[si as int] == store_count(input, ch, si as int));
        }
        let ghost mid = bar_of(best, current.score);
        let count: usize = current.store_card_counts[si];
        if 1 <= count && count <= SWAP_MAX_PER_STORE {
            let mut sj: usize = si + 1;
            let ghost midway = shown(best);
            while sj < m
                invariant
                    input.wf(),
                    current.wf(input, config),
                    ch == current.choices@,
                    scratch.wf(input, config),
                    scratch.choices@ == ch,
                    config.strategy == Strategy::Cheapest,
                    m == input.stores(),
                    si < sj <= m,
                    s == current.spread(),
                    shown(best) == best_of(
                        input,
                        config,
                        ch,
                        midway,
                        swaps_with(input, s, si as int, sj as int),
                    ),
                    current.store_card_counts@[si as int] <= SWAP_MAX_PER_STORE,
                    found_ok(input, config, ch, best),
                    bar_of(best, current.score) <= mid,
                    forall|ci: int, cj: int, t: int|
                        t < sj && #[trigger] can_swap(input, ch, ci, si as int, cj, t) ==> score(
                            input,
                            config,
                            swapped(input, ch, ci, si as int, cj, t),
                        ) >= bar_of(best, current.score),
                decreases m - sj,
            {
                proof {
                    assert(current.store_card_counts@[sj as int] == store_count(
                        input,
                        ch,
                        sj as int,
                    ));
                }
                let other: usize = current.store_card_counts[sj];
                if 1 <= other && other <= SWAP_MAX_PER_STORE {
                    proof {
                        lemma_best_of_concat(
                            input,
                            config,
                            ch,
                            midway,
                            swaps_with(input, s, si as int, sj as int),
                            swaps_of(input, s, si as int, sj as int, s.at[si as int].len() as int),
                        );
                    }
                    best = consider_swaps_between(
                        current,
                        best,
                        &mut scratch,
                        si,
                        sj,
                        input,
                        config,
                    );
                } else {
                    proof {
                        assert forall|ci: int, cj: int| !#[trigger]
                            can_swap(input, ch, ci, si as int, cj, sj as int) by {
                            if can_swap(input, ch, ci, si as int, cj, sj as int) {
                                lemma_member(input, ch, cj);
                            }
                        }
                    }
                }
                sj += 1;
            }
            proof {
                lemma_best_of_concat(
                    input,
                    config,
                    ch,
                    given,
                    swap_moves(input, s, si as int),
                    swaps_with(input, s, si as int, m as int),
                );
            }
        } else {
            proof {
                assert forall|ci: int, cj: int, t: int| !#[trigger]
                    can_swap(input, ch, ci, si as int, cj, t) by {
                    if can_swap(input, ch, ci, si as int, cj, t) {
                        lemma_member(input, ch, ci);
                    }
                }
            }
        }
        si += 1;
    }
    best
}

/// The better of `best` and the swaps between two given stores.  `scratch` is a
/// copy of `current` to try moves on.
fn consider_swaps_between(
    current: &ScoredAssignment,
    best: Option<ScoredAssignment>,
    scratch: &mut ScoredAssignment,
    si: usize,
    sj: usize,
    input: &WizardInput,
    config: &WizardConfig,
) -> (better: Option<ScoredAssignment>)
    requires
        input.wf(),
        current.wf(input, config),
        old(scratch).wf(input, config),
        old(scratch).choices@ == current.choices@,
        config.strategy == Strategy::Cheapest,
        si < sj < input.stores(),
        current.store_card_counts@[si as int] <= SWAP_MAX_PER_STORE,
        current.store_card_counts@[sj as int] <= SWAP_MAX_PER_STORE,
        found_ok(input, config, current.choices@, best),
    ensures
        final(scratch).wf(input, config),
        final(scratch).choices@ == current.choices@,
        found_ok(input, config, current.choices@, better),
        bar_of(better, current.score) <= bar_of(best, current.score),
        forall|ci: int, cj: int| #[trigger]
            can_swap(input, current.choices@, ci, si as int, cj, sj as int) ==> score(
                input,
                config,
                swapped(input, current.choices@, ci, si as int, cj, sj as int),
            ) >= bar_of(better, current.score),
        shown(better) == best_of(
            input,
            config,
            current.choices@,
            shown(best),
            swaps_of(
                input,
                current.spread(),
                si as int,
                sj as int,
                current.spread().at[si as int].len() as int,
            ),
        ),
{
    let ghost s = current.spread();
    let ghost given = shown(best);
    let ghost first = bar_of(best, current.score);
    let ghost ch = current.choices@;
    let ghost ls = current.cards_at@[si as int]@;
    proof {
        assert(current.store_card_counts@[si as int] == store_count(input, ch, si as int));
        assert(current.store_card_counts@[sj as int] == store_count(input, ch, sj as int));
    }
    let mut best = best;
    let mut a: usize = 0;
    while a < current.cards_at[si as usize].len()
        invariant
            input.wf(),
            current.wf(input, config),
            ch == current.choices@,
            ls == current.cards_at@[si as int]@,
            scratch.wf(input, config),
            scratch.choices@ == ch,
            config.strategy == Strategy::Cheapest,
            si < sj < input.stores(),
            store_count(input, ch, si as int) <= SWAP_MAX_PER_STORE,
            store_count(input, ch, sj as int) <= SWAP_MAX_PER_STORE,
            a <= ls.len(),
            s == current.spread(),
            s.at[si as int] == ls,
            shown(best) == best_of(
                input,
                config,
                ch,
                given,
                swaps_of(input, s, si as int, sj as int, a as int),
            ),
            found_ok(input, config, ch, best),
            bar_of(best, current.score) <= first,
            forall|p: int, cj: int|
                0 <= p < a && #[trigger] can_swap(
                    input,
                    ch,
                    ls[p] as int,
                    si as int,
                    cj,
                    sj as int,
                ) ==> score(
                    input,
                    config,
                    swapped(input, ch, ls[p] as int, si as int, cj, sj as int),
                ) >= bar_of(best, current.score),
        decreases ls.len() - a,
    {
        let ci: usize = current.cards_at[si][a];
        proof {
            assert(entry_ok(
                input,
                current.choices@,
                current.cards_at@,
                current.card_pos@,
                si as int,
                a as int,
            ));
            assert(input.cell_ok(ci as int, sj as int));
            assert(valid_choice(input, ci as int, ch[ci as int]));
        }
        if let Some((oi, _)) = input.cheapest_at(ci, sj) {
            let was: Option<usize> = current.choices[ci];
            proof {
                lemma_best_of_concat(
                    input,
                    config,
                    ch,
                    given,
                    swaps_of(input, s, si as int, sj as int, a as int),
                    second_moves(
                        input,
                        s,
                        ci as int,
                        oi,
                        si as int,
                        sj as int,
                        s.at[sj as int].len() as int,
                    ),
                );
            }
            scratch.apply_single_move(ci, Some(oi), input, config);
            best = consider_seconds(current, best, scratch, ci, oi, si, sj, input, config);
            scratch.apply_single_move(ci, was, input, config);
            assert(scratch.choices@ =~= ch);
        }
        a += 1;
    }
    proof {
        assert forall|ci: int, cj: int| #[trigger]
            can_swap(input, ch, ci, si as int, cj, sj as int) implies score(
            input,
            config,
            swapped(input, ch, ci, si as int, cj, sj as int),
        ) >= bar_of(best, current.score) by {
            assert(card_listed(input, current.choices@, current.cards_at@, current.card_pos@, ci));
            let p = current.card_pos@[ci] as int;
            assert(ls[p] == ci);
            assert(can_swap(input, ch, ls[p] as int, si as int, cj, sj as int));
        }
    }
    best
}

/// The better of `best` and the swaps whose first move `moved` has made.
fn consider_seconds(
    current: &ScoredAssignment,
    best: Option<ScoredAssignment>,
    moved: &ScoredAssignment,
    ci: usize,
    oi: usize,
    si: usize,
    sj: usize,
    input: &WizardInput,
    config: &WizardConfig,
) -> (better: Option<ScoredAssignment>)
    requires
        input.wf(),
        current.wf(input, config),
        config.strategy == Strategy::Cheapest,
        si < sj < input.stores(),
        store_count(input, current.choices@, si as int) <= SWAP_MAX_PER_STORE,
        store_count(input, current.choices@, sj as int) <= SWAP_MAX_PER_STORE,
        ci < input.n_cards(),
        is_at(input, ci as int, current.choices@[ci as int], si as int),
        input.cheapest(ci as int, sj as int) == Some(oi),
        moved.wf(input, config),
        moved.choices@ == current.choices@.update(ci as int, Some(oi)),
        found_ok(input, config, current.choices@, best),
    ensures
        found_ok(input, config, current.choices@, better),
        bar_of(better, current.score) <= bar_of(best, current.score),
        forall|cj: int| #[trigger]
            can_swap(input, current.choices@, ci as int, si as int, cj, sj as int) ==> score(
                input,
                config,
                swapped(input, current.choices@, ci as int, si as int, cj, sj as int),
            ) >= bar_of(better, current.score),
        shown(better) == best_of(
            input,
            config,
            current.choices@,
            shown(best),
            second_moves(
                input,
                current.spread(),
                ci as int,
                oi,
                si as int,
                sj as int,
                current.spread().at[sj as int].len() as int,
            ),
        ),
{
    let ghost s = current.spread();
    let ghost given = shown(best);
    let ghost first = bar_of(best, current.score);
    let ghost ch = current.choices@;
    let ghost ls = current.cards_at@[sj as int]@;
    let mut best = best;
    let mut b: usize = 0;
    while b < current.cards_at[sj].len()
        invariant
            input.wf(),
            current.wf(input, config),
            ch == current.choices@,
            ls == current.cards_at@[sj as int]@,
            config.strategy == Strategy::Cheapest,
            si < sj < input.stores(),
            store_count(input, ch, si as int) <= SWAP_MAX_PER_STORE,
            store_count(input, ch, sj as int) <= SWAP_MAX_PER_STORE,
            ci < input.n_cards(),
            is_at(input, ci as int, ch[ci as int], si as int),
            input.cheapest(ci as int, sj as int) == Some(oi),
            moved.wf(input, config),
            moved.choices@ == ch.update(ci as int, Some(oi)),
            b <= ls.len(),
            s == current.spread(),
            s.at[sj as int] == ls,
            shown(best) == best_of(
                input,
                config,
                ch,
                given,
                second_moves(input, s, ci as int, oi, si as int, sj as int, b as int),
            ),
            found_ok(input, config, ch, best),
            bar_of(best, current.score) <= first,
            forall|p: int|
                0 <= p < b && #[trigger] can_swap(
                    input,
                    ch,
                    ci as int,
                    si as int,
                    ls[p] as int,
                    sj as int,
                ) ==> score(
                    input,
                    config,
                    swapped(input, ch, ci as int, si as int, ls[p] as int, sj as int),
                ) >= bar_of(best, current.score),
        decreases ls.len() - b,
    {
        let cj: usize = current.cards_at[sj][b];
        proof {
            assert(entry_ok(
                input,
                current.choices@,
                current.cards_at@,
                current.card_pos@,
                sj as int,
                b as int,
            ));
            assert(input.cell_ok(cj as int, si as int));
            lemma_score_bound(input, config, ch);
            lemma_score_bound(input, config, moved.choices@);
            if best is Some {
                lemma_score_bound(input, config, best->0.choices@);
            }
        }
        if let Some((oj, _)) = input.cheapest_at(cj, si) {
            assert(swapped(input, ch, ci as int, si as int, cj as int, sj as int)
                == moved.choices@.update(cj as int, Some(oj)));
            proof {
                let first_move = relisted(input, s, ci as int, Some(oi));
                lemma_best_of_push(
                    input,
                    config,
                    ch,
                    given,
                    second_moves(input, s, ci as int, oi, si as int, sj as int, b as int),
                    relisted(input, first_move, cj as int, Some(oj)),
                );
            }
            let delta = moved.try_single_move_delta(cj, Some(oj), input, config);
            if moved.score as i64 + delta < bar_at(&best, current.score) as i64 {
                assert(input.cell_ok(ci as int, sj as int));
                let mut nb = current.duplicate();
                nb.apply_single_move(ci, Some(oi), input, config);
                nb.apply_single_move(cj, Some(oj), input, config);
                assert(can_swap(input, ch, ci as int, si as int, cj as int, sj as int));
                best = Some(nb);
            }
        }
        b += 1;
    }
    proof {
        assert forall|cj: int| #[trigger]
            can_swap(input, ch, ci as int, si as int, cj, sj as int) implies score(
            input,
            config,
            swapped(input, ch, ci as int, si as int, cj, sj as int),
        ) >= bar_of(best, current.score) by {
            assert(card_listed(input, current.choices@, current.cards_at@, current.card_pos@, cj));
            let p = current.card_pos@[cj] as int;
            assert(ls[p] == cj);
            assert(can_swap(input, ch, ci as int, si as int, ls[p] as int, sj as int));
        }
    }
    best
}

/// The better of `best` and moving card `ci` to `new`.
fn consider_move(
    current: &ScoredAssignment,
    best: Option<ScoredAssignment>,
    ci: usize,
    from: usize,
    new: Option<usize>,
    input: &WizardInput,
    config: &WizardConfig,
) -> (better: Option<ScoredAssignment>)
    requires
        input.wf(),
        current.wf(input, config),
        found_ok(input, config, current.choices@, best),
        clearing_move(input, current.choices@, ci as int, from as int, new),
    ensures
        found_ok(input, config, current.choices@, better),
        bar_of(better, current.score) <= bar_of(best, current.score),
        current.score + score_change(input, config, current.choices@, ci as int, new) >= bar_of(
            better,
            current.score,
        ),
        shown(better) == better_of(
            input,
            config,
            current.choices@,
            shown(best),
            relisted(input, current.spread(), ci as int, new),
        ),
{
    proof {
        lemma_score_bound(input, config, current.choices@);
        if best is Some {
            lemma_score_bound(input, config, best->0.choices@);
        }
    }
    let delta = current.try_single_move_delta(ci, new, input, config);
    if current.score as i64 + delta < bar_at(&best, current.score) as i64 {
        let mut nb = current.duplicate();
        nb.apply_single_move(ci, new, input, config);
        assert(clearing_move(input, current.choices@, ci as int, from as int, new));
        Some(nb)
    } else {
        best
    }
}

/// The better of `best` and every move of a card out of a small store.
fn consider_small_stores(
    current: &ScoredAssignment,
    best: Option<ScoredAssignment>,
    input: &WizardInput,
    config: &WizardConfig,
) -> (better: Option<ScoredAssignment>)
    requires
        input.wf(),
        current.wf(input, config),
        found_ok(input, config, current.choices@, best),
    ensures
        found_ok(input, config, current.choices@, better),
        bar_of(better, current.score) <= bar_of(best, current.score),
        clearing_bar(
            input,
            config,
            current.choices@,
            bar_of(better, current.score) as int,
        ),
        shown(better) == best_of(
            input,
            config,
            current.choices@,
            shown(best),
            clearing_moves(input, current.spread(), input.stores() as int),
        ),
{
    let ghost s = current.spread();
    let ghost given = shown(best);
    let ghost first = bar_of(best, current.score);
    let ghost ch = current.choices@;
    let m: usize = input.store_names.len();
    let mut best = best;
    let mut from: usize = 0;
    while from < m
        invariant
            input.wf(),
            current.wf(input, config),
            ch == current.choices@,
            m == input.stores(),
            from <= m,
            s == current.spread(),
            shown(best) == best_of(
                input,
                config,
                ch,
                given,
                clearing_moves(input, s, from as int),
            ),
            found_ok(input, config, ch, best),
            bar_of(best, current.score) <= first,
            forall|ci: int, s: int, new: Option<usize>|
                s < from && #[trigger] clearing_move(input, ch, ci, s, new) ==> current.score
                    + score_change(input, config, ch, ci, new) >= bar_of(best, current.score),
        decreases m - from,
    {
        let count: usize = current.store_card_counts[from];
        proof {
            assert(current.store_card_counts@[from as int] == store_count(input, ch, from as int));
        }
        if 1 <= count && count <= SMALL_STORE {
            let ghost mid = bar_of(best, current.score);
            let ghost midway = shown(best);
            let mut a: usize = 0;
            while a < current.cards_at[from].len()
                invariant
                    input.wf(),
                    current.wf(input, config),
                    ch == current.choices@,
                    from < input.stores(),
                    1 <= store_count(input, ch, from as int) <= SMALL_STORE,
                    a <= current.cards_at@[from as int]@.len(),
                    s == current.spread(),
                    shown(best) == best_of(
                        input,
                        config,
                        ch,
                        midway,
                        clearings_of(input, s, from as int, a as int),
                    ),
                    found_ok(input, config, ch, best),
                    bar_of(best, current.score) <= mid,
                    forall|p: int, new: Option<usize>|
                        0 <= p < a && #[trigger] clearing_move(
                            input,
                            ch,
                            current.cards_at@[from as int]@[p] as int,
                            from as int,
                            new,
                        ) ==> current.score + score_change(
                            input,
                            config,
                            ch,
                            current.cards_at@[from as int]@[p] as int,
                            new,
                        ) >= bar_of(best, current.score),
                decreases current.cards_at@[from as int]@.len() - a,
            {
                let ci: usize = current.cards_at[from][a];
                proof {
                    assert(entry_ok(
                        input,
                        current.choices@,
                        current.cards_at@,
                        current.card_pos@,
                        from as int,
                        a as int,
                    ));
                }
                let mut oi: usize = 0;
                let ghost inner = bar_of(best, current.score);
                let ghost done = clearings_of(input, s, from as int, a as int);
                assert(done + moves_away(input, s, ci as int, from as int, 0) =~= done);
                while oi < input.cards[ci as usize].options.len()
                    invariant
                        input.wf(),
                        current.wf(input, config),
                        ch == current.choices@,
                        from < input.stores(),
                        1 <= store_count(input, ch, from as int) <= SMALL_STORE,
                        ci < input.n_cards(),
                        is_at(input, ci as int, ch[ci as int], from as int),
                        oi <= input.options(ci as int).len(),
                        s == current.spread(),
                        shown(best) == best_of(
                            input,
                            config,
                            ch,
                            midway,
                            done + moves_away(input, s, ci as int, from as int, oi as int),
                        ),
                        found_ok(input, config, ch, best),
                        bar_of(best, current.score) <= inner,
                        forall|o: usize|
                            o < oi && #[trigger] clearing_move(
                                input,
                                ch,
                                ci as int,
                                from as int,
                                Some(o),
                            ) ==> current.score + score_change(
                                input,
                                config,
                                ch,
                                ci as int,
                                Some(o),
                            ) >= bar_of(best, current.score),
                    decreases input.options(ci as int).len() - oi,
                {
                    if input.cards[ci].options[oi].store_idx != from {
                        proof {
                            let list = moves_away(input, s, ci as int, from as int, oi as int);
                            let next = relisted(input, s, ci as int, Some(oi));
                            lemma_best_of_push(input, config, ch, midway, done + list, next);
                            assert(done + list.push(next) =~= (done + list).push(next));
                        }
                        best = consider_move(current, best, ci, from, Some(oi), input, config);
                    }
                    oi += 1;
                }
                proof {
                    let list = done + moves_away(input, s, ci as int, from as int, oi as int);
                    let next = relisted(input, s, ci as int, None);
                    lemma_best_of_push(input, config, ch, midway, list, next);
                }
                best = consider_move(current, best, ci, from, None, input, config);
                proof {
                    assert forall|new: Option<usize>| #[trigger]
                        clearing_move(input, ch, ci as int, from as int, new) implies current.score
                        + score_change(input, config, ch, ci as int, new) >= bar_of(
                        best,
                        current.score,
                    ) by {
                        if let Some(o) = new {
                            assert(o < input.options(ci as int).len());
                        }
                    }
                }
                a += 1;
            }
            proof {
                lemma_best_of_concat(
                    input,
                    config,
                    ch,
                    given,
                    clearing_moves(input, s, from as int),
                    clearings_of(input, s, from as int, s.at[from as int].len() as int),
                );
                assert forall|ci: int, new: Option<usize>| #[trigger]
                    clearing_move(input, ch, ci, from as int, new) implies current.score
                    + score_change(input, config, ch, ci, new) >= bar_of(best, current.score) by {
                    assert(card_listed(
                        input,
                        current.choices@,
                        current.cards_at@,
                        current.card_pos@,
                        ci,
                    ));
                    let p = current.card_pos@[ci] as int;
                    assert(current.cards_at@[from as int]@[p] == ci);
                }
            }
        }
        from += 1;
    }
    best
}

/// The assignment after `from` is emptied into `to`, if `to` carries all its cards.
fn merge_stores(
    current: &ScoredAssignment,
    from: usize,
    to: usize,
    input: &WizardInput,
    config: &WizardConfig,
) -> (nb: Option<ScoredAssignment>)
    requires
        input.wf(),
        current.wf(input, config),
        from < input.stores(),
        to < input.stores(),
        from != to,
        store_count(input, current.choices@, from as int) > 0,
        store_count(input, current.choices@, to as int) > 0,
    ensures
        nb is Some <==> can_merge(input, current.choices@, from as int, to as int),
        nb matches Some(b) ==> b.wf(input, config) && b.choices@ == merged(
            input,
            current.choices@,
            from as int,
            to as int,
        ),
        nb matches Some(b) ==> b.spread() == moved_to(
            input,
            current.spread(),
            current.spread().at[from as int],
            to as int,
            current.spread().at[from as int].len() as int,
        ),
{
    let ghost s = current.spread();
    let ghost ch = current.choices@;
    let mut nb = current.duplicate();
    let mut a: usize = 0;
    while a < current.cards_at[from].len()
        invariant
            input.wf(),
            current.wf(input, config),
            nb.wf(input, config),
            ch == current.choices@,
            from < input.stores(),
            to < input.stores(),
            from != to,
            a <= current.cards_at@[from as int]@.len(),
            s == current.spread(),
            s.at[from as int] == current.cards_at@[from as int]@,
            nb.spread() == moved_to(input, s, s.at[from as int], to as int, a as int),
            forall|p: int|
                0 <= p < a ==> input.cheapest(
                    (#[trigger] current.cards_at@[from as int]@[p]) as int,
                    to as int,
                ) is Some,
            forall|ci: int|
                0 <= ci < ch.len() ==> #[trigger] nb.choices@[ci] == if is_at(
                    input,
                    ci,
                    ch[ci],
                    from as int,
                ) && current.card_pos@[ci] < a {
                    input.cheapest(ci, to as int)
                } else {
                    ch[ci]
                },
        decreases current.cards_at@[from as int]@.len() - a,
    {
        let ci: usize = current.cards_at[from][a];
        proof {
            assert(entry_ok(
                input,
                current.choices@,
                current.cards_at@,
                current.card_pos@,
                from as int,
                a as int,
            ));
            assert(input.cell_ok(ci as int, to as int));
        }
        match input.cheapest_at(ci, to) {
            Some((oi, _)) => {
                nb.apply_single_move(ci, Some(oi), input, config);
                proof {
                    assert forall|k: int| 0 <= k < ch.len() implies #[trigger] nb.choices@[k]
                        == if is_at(input, k, ch[k], from as int) && current.card_pos@[k] < a + 1 {
                        input.cheapest(k, to as int)
                    } else {
                        ch[k]
                    } by {
                        assert(card_listed(
                            input,
                            current.choices@,
                            current.cards_at@,
                            current.card_pos@,
                            k,
                        ));
                    }
                }
            },
            None => {
                assert(!can_merge(input, ch, from as int, to as int)) by {
                    assert(is_at(input, ci as int, ch[ci as int], from as int));
                }
                return None;
            },
        }
        a += 1;
    }
    proof {
        assert forall|ci: int|
            0 <= ci < ch.len() && #[trigger] is_at(input, ci, ch[ci], from as int) implies
            input.cheapest(ci, to as int) is Some && current.card_pos@[ci] < a by {
            assert(card_listed(input, current.choices@, current.cards_at@, current.card_pos@, ci));
            let p = current.card_pos@[ci] as int;
            assert(current.cards_at@[from as int]@[p] == ci);
        }
        assert(nb.choices@ =~= merged(input, ch, from as int, to as int));
    }
    Some(nb)
}

/// The better of `best` and every merge of one used store into another.
fn consider_merges(
    current: &ScoredAssignment,
    best: Option<ScoredAssignment>,
    input: &WizardInput,
    config: &WizardConfig,
) -> (better: Option<ScoredAssignment>)
    requires
        input.wf(),
        current.wf(input, config),
        found_ok(input, config, current.choices@, best),
    ensures
        found_ok(input, config, current.choices@, better),
        bar_of(better, current.score) <= bar_of(best, current.score),
        merge_bar(input, config, current.choices@, bar_of(better, current.score) as int),
        shown(better) == best_of(
            input,
            config,
            current.choices@,
            shown(best),
            merge_moves(input, current.spread(), input.stores() as int),
        ),
{
    let ghost s = current.spread();
    let ghost given = shown(best);
    let ghost first = bar_of(best, current.score);
    let ghost ch = current.choices@;
    let m: usize = input.store_names.len();
    let mut best = best;
    let mut from: usize = 0;
    while from < m
        invariant
            input.wf(),
            current.wf(input, config),
            ch == current.choices@,
            m == input.stores(),
            from <= m,
            s == current.spread(),
            shown(best) == best_of(input, config, ch, given, merge_moves(input, s, from as int)),
            found_ok(input, config, ch, best),
            bar_of(best, current.score) <= first,
            forall|f: int, t: int|
                f < from && #[trigger] can_merge(input, ch, f, t) ==> score(
                    input,
                    config,
                    merged(input, ch, f, t),
                ) >= bar_of(best, current.score),
        decreases m - from,
    {
        let ghost mid = bar_of(best, current.score);
        let ghost midway = shown(best);
        let mut to: usize = 0;
        while to < m
            invariant
                input.wf(),
                current.wf(input, config),
                ch == current.choices@,
                m == input.stores(),
                from < m,
                to <= m,
                s == current.spread(),
                shown(best) == best_of(
                    input,
                    config,
                    ch,
                    midway,
                    merges_of(input, s, from as int, to as int),
                ),
                found_ok(input, config, ch, best),
                bar_of(best, current.score) <= mid,
                forall|t: int|
                    t < to && #[trigger] can_merge(input, ch, from as int, t) ==> score(
                        input,
                        config,
                        merged(input, ch, from as int, t),
                    ) >= bar_of(best, current.score),
            decreases m - to,
        {
            proof {
                assert(current.store_card_counts@[from as int] == store_count(
                    input,
                    ch,
                    from as int,
                ));
                assert(current.store_card_counts@[to as int] == store_count(input, ch, to as int));
            }
            if from != to && current.store_card_counts[from] > 0 && current.store_card_counts[to]
                > 0 {
                if let Some(nb) = merge_stores(current, from, to, input, config) {
                    proof {
                        lemma_best_of_push(
                            input,
                            config,
                            ch,
                            midway,
                            merges_of(input, s, from as int, to as int),
                            nb.spread(),
                        );
                    }
                    if nb.score < bar_at(&best, current.score) {
                        best = Some(nb);
                    }
                }
            }
            to += 1;
        }
        proof {
            lemma_best_of_concat(
                input,
                config,
                ch,
                given,
                merge_moves(input, s, from as int),
                merges_of(input, s, from as int, m as int),
            );
        }
        from += 1;
    }
    best
}

/// The best improving neighbour, the first one looked at among equals: none scores
/// below it.  Without one, the assignment is a local optimum.
pub fn best_neighbor(
    current: &ScoredAssignment,
    input: &WizardInput,
    config: &WizardConfig,
) -> (best: Option<ScoredAssignment>)
    requires
        input.wf(),
        current.wf(input, config),
    ensures
        match best {
            Some(nb) => {
                &&& nb.wf(input, config)
                &&& nb.score < current.score
                &&& neighbor(input, config, current.choices@, nb.choices@)
                &&& floor_at(input, config, current.choices@, nb.score as int)
            },
            None => local_optimum(input, config, current.choices@),
        },
        shown(best) == next_step(input, config, current.spread()),
{
    let ghost s = current.spread();
    let ghost ch = current.choices@;
    let ghost m = input.stores() as int;
    let ghost single = plain_moves(input, s, input.n_cards() as int);
    let ghost swaps = if config.strategy == Strategy::Cheapest {
        swap_moves(input, s, m)
    } else {
        Seq::empty()
    };
    proof {
        lemma_best_of_concat(input, config, ch, None, single, swaps);
        lemma_best_of_concat(input, config, ch, None, single + swaps, clearing_moves(input, s, m));
        lemma_best_of_concat(
            input,
            config,
            ch,
            None,
            single + swaps + clearing_moves(input, s, m),
            merge_moves(input, s, m),
        );
    }
    let mut best: Option<ScoredAssignment> = None;
    if let Some((ci, new)) = best_single_move(current, input, config) {
        let mut nb = current.duplicate();
        nb.apply_single_move(ci, new, input, config);
        assert(plain_move(input, current.choices@, ci as int, new));
        best = Some(nb);
    }
    if config.strategy == Strategy::Cheapest {
        best = consider_swaps(current, best, input, config);
    }
    best = consider_small_stores(current, best, input, config);
    best = consider_merges(current, best, input, config);
    best
}

/// `b` is a best improving neighbour of `a`.
pub open spec fn best_step(
    input: &WizardInput,
    config: &WizardConfig,
    a: Seq<Option<usize>>,
    b: Seq<Option<usize>>,
) -> bool {
    &&& neighbor(input, config, a, b)
    &&& score(input, config, b) < score(input, config, a)
    &&& floor_at(input, config, a, score(input, config, b))
}

/// A path of best improving steps, each to the first of the best neighbours.
pub open spec fn climb_path(
    input: &WizardInput,
    config: &WizardConfig,
    path: Seq<Spread>,
) -> bool {
    &&& path.len() > 0
    &&& forall|i: int|
        0 <= i < path.len() - 1 ==> next_step(input, config, #[trigger] path[i]) == Some(
            path[i + 1],
        ) && best_step(input, config, path[i].choices, path[i + 1].choices)
}

/// Climbing from `s` ends at `t`: best improving steps lead there, and no neighbour
/// of `t` improves it.
pub open spec fn climbs_from(
    input: &WizardInput,
    config: &WizardConfig,
    s: Spread,
    t: Spread,
) -> bool {
    &&& local_optimum(input, config, t.choices)
    &&& next_step(input, config, t) is None
    &&& exists|path: Seq<Spread>| #[trigger]
        climb_path(input, config, path) && path[0] == s && path.last() == t
}

/// Climbing from the choices `a`, with the cards of each store in some order, ends
/// at the choices `b`.
pub open spec fn climbs(
    input: &WizardInput,
    config: &WizardConfig,
    a: Seq<Option<usize>>,
    b: Seq<Option<usize>>,
) -> bool {
    exists|s: Spread, t: Spread| #[trigger]
        climbs_from(input, config, s, t) && spread_ok(input, s) && s.choices == a && t.choices == b
}

/// Climbs from `current` to a local optimum: applies the best improving
/// neighbour until there is none.
pub fn hill_climb(
    current: ScoredAssignment,
    input: &WizardInput,
    config: &WizardConfig,
) -> (top: ScoredAssignment)
    requires
        input.wf(),
        current.wf(input, config),
    ensures
        top.wf(input, config),
        top.score <= current.score,
        climbs_from(input, config, current.spread(), top.spread()),
        climbs(input, config, current.choices@, top.choices@),
        local_optimum(input, config, top.choices@),
{
    let mut top = current;
    let ghost start = current.spread();
    let ghost mut path: Seq<Spread> = seq![start];
    proof {
        lemma_spread_ok(&current, input, config);
    }
    loop
        invariant
            input.wf(),
            top.wf(input, config),
            top.score <= current.score,
            climb_path(input, config, path),
            path[0] == start,
            path.last() == top.spread(),
        ensures
            top.wf(input, config),
            top.score <= current.score,
            climb_path(input, config, path),
            path[0] == start,
            path.last() == top.spread(),
            local_optimum(input, config, top.choices@),
            next_step(input, config, top.spread()) is None,
        decreases top.score,
    {
        match best_neighbor(&top, input, config) {
            Some(nb) => {
                proof {
                    let longer = path.push(nb.spread());
                    assert forall|i: int| 0 <= i < longer.len() - 1 implies next_step(
                        input,
                        config,
                        #[trigger] longer[i],
                    ) == Some(longer[i + 1]) && best_step(
                        input,
                        config,
                        longer[i].choices,
                        longer[i + 1].choices,
                    ) by {
                        if i < path.len() - 1 {
                            assert(next_step(input, config, path[i]) == Some(path[i + 1]));
                        } else {
                            assert(longer[i] == top.spread());
                        }
                    }
                    path = longer;
                }
                top = nb;
            },
            None => {
                break;
            },
        }
    }
    assert(climbs_from(input, config, start, top.spread()));
    top
}

/// No neighbour of a local optimum scores lower.
pub proof fn law_local_optimum(
    input: &WizardInput,
    config: &WizardConfig,
    a: Seq<Option<usize>>,
    b: Seq<Option<usize>>,
)
    requires
        local_optimum(input, config, a),
        neighbor(input, config, a, b),
    ensures
        score(input, config, b) >= score(input, config, a),
{
    if by_plain(input, a, b) {
        let (ci, new) = choose|ci: int, new: Option<usize>| #[trigger]
            plain_move(input, a, ci, new) && b == a.update(ci, new);
        assert(score_change(input, config, a, ci, new) >= 0);
    } else if by_clearing(input, a, b) {
        let (ci, from, new) = choose|ci: int, from: int, new: Option<usize>| #[trigger]
            clearing_move(input, a, ci, from, new) && b == a.update(ci, new);
        assert(score_change(input, config, a, ci, new) >= 0);
    }
}

/// Climbing never raises the score, and climbing again from where a climb ended
/// changes nothing.
pub proof fn law_climb_ends(
    input: &WizardInput,
    config: &WizardConfig,
    a: Seq<Option<usize>>,
    b: Seq<Option<usize>>,
    c: Seq<Option<usize>>,
)
    requires
        climbs(input, config, a, b),
        climbs(input, config, b, c),
    ensures
        score(input, config, b) <= score(input, config, a),
        c == b,
{
    let (s, t) = choose|s: Spread, t: Spread| #[trigger]
        climbs_from(input, config, s, t) && spread_ok(input, s) && s.choices == a && t.choices == b;
    let path = choose|path: Seq<Spread>| #[trigger]
        climb_path(input, config, path) && path[0] == s && path.last() == t;
    lemma_path_falls(input, config, path, path.len() - 1);
    let (u, v) = choose|u: Spread, v: Spread| #[trigger]
        climbs_from(input, config, u, v) && spread_ok(input, u) && u.choices == b && v.choices == c;
    let more = choose|path: Seq<Spread>| #[trigger]
        climb_path(input, config, path) && path[0] == u && path.last() == v;
    if more.len() > 1 {
        assert(next_step(input, config, more[0]) == Some(more[0int + 1]));
        law_local_optimum(input, config, b, more[1].choices);
    }
}

proof fn lemma_path_falls(
    input: &WizardInput,
    config: &WizardConfig,
    path: Seq<Spread>,
    k: int,
)
    requires
        climb_path(input, config, path),
        0 <= k < path.len(),
    ensures
        score(input, config, path[k].choices) <= score(input, config, path[0].choices),
    decreases k,
{
    if k > 0 {
        lemma_path_falls(input, config, path, k - 1);
        assert(next_step(input, config, path[k - 1]) == Some(path[k - 1 + 1]));
    }
}

/// Two climbs from the same assignment, with the cards of each store in the same
/// order, end at the same one.
pub proof fn law_climb_is_determined(
    input: &WizardInput,
    config: &WizardConfig,
    s: Spread,
    t: Spread,
    u: Spread,
)
    requires
        climbs_from(input, config, s, t),
        climbs_from(input, config, s, u),
    ensures
        t == u,
{
    let a = choose|path: Seq<Spread>| #[trigger]
        climb_path(input, config, path) && path[0] == s && path.last() == t;
    let b = choose|path: Seq<Spread>| #[trigger]
        climb_path(input, config, path) && path[0] == s && path.last() == u;
    if a.len() <= b.len() {
        lemma_same_path(input, config, a, b, a.len() - 1);
    } else {
        lemma_same_path(input, config, b, a, b.len() - 1);
    }
}

proof fn lemma_same_path(
    input: &WizardInput,
    config: &WizardConfig,
    a: Seq<Spread>,
    b: Seq<Spread>,
    k: int,
)
    requires
        climb_path(input, config, a),
        climb_path(input, config, b),
        a[0] == b[0],
        0 <= k < a.len() <= b.len(),
        next_step(input, config, a.last()) is None,
    ensures
        a[k] == b[k],
        k == a.len() - 1 ==> a.len() == b.len(),
    decreases k,
{
    if k > 0 {
        lemma_same_path(input, config, a, b, k - 1);
        assert(next_step(input, config, a[k - 1]) == Some(a[k - 1 + 1]));
        assert(next_step(input, config, b[k - 1]) == Some(b[k - 1 + 1]));
    }
    if k == a.len() - 1 && k < b.len() - 1 {
        assert(next_step(input, config, b[k]) == Some(b[k + 1]));
    }
}

} // verus!
