//! Heuristic search: greedy starts, perturbation, annealing steps, iterated local search.

use crate::parallel::map_indices;
use crate::random::{any_number, index_below};
use crate::sums::{lemma_total_bounds, lemma_total_take, lemma_total_update, total};
use crate::wizard::model::{Strategy, WizardConfig, WizardInput};
use crate::wizard::neighbor::{
    climbs, climbs_from, hill_climb, law_climb_is_determined, local_optimum,
};
use crate::wizard::score::{
    is_at, lemma_bounds, score, store_count, stores_used, used_flags, valid_choice, valid_choices,
};
use crate::wizard::scored::{
    card_listed, entry_ok, fitted, in_order, lemma_fitted_valid, score_change, Assignment,
    ScoredAssignment, Spread,
};
use crate::wizard::solution::{build_solution, WizardSolution};
use rand::rngs::StdRng;
use vstd::prelude::*;

verus! {

// Greedy start

/// One for each card of store `si` that has no choice yet.
pub open spec fn open_flags(input: &WizardInput, ch: Seq<Option<usize>>, si: int) -> Seq<int> {
    let listed = input.store_cards@[si]@;
    Seq::new(
        listed.len(),
        |k: int|
            if ch[listed[k] as int] is None {
                1
            } else {
                0int
            },
    )
}

/// How many cards without a choice the store lists.
pub open spec fn gain_of(input: &WizardInput, ch: Seq<Option<usize>>, si: int) -> int {
    total(open_flags(input, ch, si))
}

/// The largest gain among the stores below `k` that were not picked yet.
pub open spec fn best_gain(
    input: &WizardInput,
    ch: Seq<Option<usize>>,
    picked: Seq<bool>,
    k: int,
) -> int
    decreases k,
{
    if k <= 0 {
        0
    } else {
        let rest = best_gain(input, ch, picked, k - 1);
        if !picked[k - 1] && gain_of(input, ch, k - 1) > rest {
            gain_of(input, ch, k - 1)
        } else {
            rest
        }
    }
}

/// The stores below `k` with that gain that were not picked yet, ascending.
pub open spec fn with_gain(
    input: &WizardInput,
    ch: Seq<Option<usize>>,
    picked: Seq<bool>,
    gain: int,
    k: int,
) -> Seq<usize>
    decreases k,
{
    if k <= 0 {
        Seq::empty()
    } else if !picked[k - 1] && gain_of(input, ch, k - 1) == gain {
        with_gain(input, ch, picked, gain, k - 1).push((k - 1) as usize)
    } else {
        with_gain(input, ch, picked, gain, k - 1)
    }
}

/// The store to pick next: one of those that cover the most open cards, by the
/// seed; nothing when no store covers any.
pub open spec fn next_store(
    input: &WizardInput,
    seed: usize,
    ch: Seq<Option<usize>>,
    picked: Seq<bool>,
) -> Option<usize> {
    let m = input.stores() as int;
    let gain = best_gain(input, ch, picked, m);
    let ties = with_gain(input, ch, picked, gain, m);
    if gain <= 0 || ties.len() == 0 {
        None
    } else {
        Some(ties[seed as int % ties.len() as int])
    }
}

/// Every open card bought at store `si` that carries it.
pub open spec fn filled(input: &WizardInput, ch: Seq<Option<usize>>, si: int) -> Seq<Option<usize>> {
    Seq::new(
        ch.len(),
        |ci: int|
            if ch[ci] is None {
                input.cheapest(ci, si)
            } else {
                ch[ci]
            },
    )
}

pub open spec fn unpicked(picked: Seq<bool>) -> Seq<int> {
    Seq::new(
        picked.len(),
        |i: int|
            if picked[i] {
                0
            } else {
                1int
            },
    )
}

/// Stores are picked, each for all open cards it carries, until none covers an open card.
pub open spec fn cover(
    input: &WizardInput,
    seed: usize,
    ch: Seq<Option<usize>>,
    picked: Seq<bool>,
) -> Seq<Option<usize>>
    decreases total(unpicked(picked)),
{
    match next_store(input, seed, ch, picked) {
        Some(si) if si < picked.len() && !picked[si as int] => {
            proof {
                lemma_pick(picked, si as int);
            }
            cover(input, seed, filled(input, ch, si as int), picked.update(si as int, true))
        },
        _ => ch,
    }
}

/// The choices of the greedy start with the given seed.
pub open spec fn initial_choices(input: &WizardInput, seed: usize) -> Seq<Option<usize>> {
    cover(
        input,
        seed,
        Seq::new(input.n_cards(), |ci: int| None::<usize>),
        Seq::new(input.stores(), |si: int| false),
    )
}

/// Picking a store leaves one less to pick.
pub proof fn lemma_pick(picked: Seq<bool>, si: int)
    requires
        0 <= si < picked.len(),
        !picked[si],
    ensures
        total(unpicked(picked.update(si, true))) == total(unpicked(picked)) - 1,
        total(unpicked(picked.update(si, true))) >= 0,
{
    let a = unpicked(picked);
    assert(unpicked(picked.update(si, true)) =~= a.update(si, 0));
    lemma_total_update(a, si, 0);
    lemma_total_bounds(unpicked(picked.update(si, true)), 1);
}

/// Ties are stores that were not picked, with that gain.
proof fn lemma_with_gain(
    input: &WizardInput,
    ch: Seq<Option<usize>>,
    picked: Seq<bool>,
    gain: int,
    k: int,
)
    requires
        0 <= k <= picked.len() <= u32::MAX,
    ensures
        forall|p: int|
            0 <= p < with_gain(input, ch, picked, gain, k).len() ==> {
                let si = #[trigger] with_gain(input, ch, picked, gain, k)[p];
                si < k && !picked[si as int] && gain_of(input, ch, si as int) == gain
            },
        gain > best_gain(input, ch, picked, k) ==> with_gain(input, ch, picked, gain, k).len() == 0,
        gain == best_gain(input, ch, picked, k) && gain > 0 ==> with_gain(
            input,
            ch,
            picked,
            gain,
            k,
        ).len() > 0,
        best_gain(input, ch, picked, k) >= 0,
    decreases k,
{
    if k > 0 {
        lemma_with_gain(input, ch, picked, gain, k - 1);
        let rest = with_gain(input, ch, picked, gain, k - 1);
        let all = with_gain(input, ch, picked, gain, k);
        assert forall|p: int| 0 <= p < all.len() implies {
            let si = #[trigger] all[p];
            si < k && !picked[si as int] && gain_of(input, ch, si as int) == gain
        } by {
            if p < rest.len() {
                assert(rest[p] == all[p]);
            }
        }
    }
}

/// How many cards without a choice the store lists.
fn count_gain(input: &WizardInput, choices: &Vec<Option<usize>>, si: usize) -> (gain: usize)
    requires
        input.wf(),
        choices@.len() == input.n_cards(),
        si < input.stores(),
    ensures
        gain == gain_of(input, choices@, si as int),
{
    let listed = &input.store_cards[si];
    let ghost flags = open_flags(input, choices@, si as int);
    let mut gain: usize = 0;
    let mut k: usize = 0;
    assert(flags.take(0) =~= Seq::empty());
    while k < listed.len()
        invariant
            input.wf(),
            choices@.len() == input.n_cards(),
            si < input.stores(),
            listed@ == input.store_cards@[si as int]@,
            flags == open_flags(input, choices@, si as int),
            k <= listed@.len(),
            gain <= k,
            gain == total(flags.take(k as int)),
        decreases listed@.len() - k,
    {
        proof {
            lemma_total_take(flags, k as int);
            assert(input.store_ok(si as int));
            assert(listed@[k as int] < input.n_cards());
        }
        if choices[listed[k]].is_none() {
            gain += 1;
        }
        k += 1;
    }
    assert(flags.take(k as int) =~= flags);
    gain
}

/// The store to pick next.
fn find_next_store(
    input: &WizardInput,
    seed: usize,
    choices: &Vec<Option<usize>>,
    picked: &Vec<bool>,
) -> (next: Option<usize>)
    requires
        input.wf(),
        choices@.len() == input.n_cards(),
        picked@.len() == input.stores(),
    ensures
        next == next_store(input, seed, choices@, picked@),
        next matches Some(si) ==> si < input.stores() && !picked@[si as int],
{
    let m: usize = input.store_names.len();
    let mut best: usize = 0;
    let mut ties: Vec<usize> = Vec::new();
    let mut si: usize = 0;
    while si < m
        invariant
            input.wf(),
            choices@.len() == input.n_cards(),
            picked@.len() == input.stores(),
            m == input.stores(),
            si <= m,
            best == best_gain(input, choices@, picked@, si as int),
            best > 0 ==> ties@ == with_gain(input, choices@, picked@, best as int, si as int),
            best == 0 ==> ties@.len() == 0,
        decreases m - si,
    {
        if !picked[si] {
            let gain = count_gain(input, choices, si);
            if gain > best {
                proof {
                    lemma_with_gain(input, choices@, picked@, gain as int, si as int);
                }
                best = gain;
                ties = Vec::new();
                ties.push(si);
                assert(with_gain(input, choices@, picked@, gain as int, si as int)
                    =~= Seq::empty());
                assert(ties@ =~= with_gain(input, choices@, picked@, gain as int, si + 1));
            } else if gain == best && gain > 0 {
                ties.push(si);
            }
        }
        si += 1;
    }
    if best == 0 {
        return None;
    }
    proof {
        lemma_with_gain(input, choices@, picked@, best as int, m as int);
        assert(0 <= seed as int % ties@.len() as int && (seed as int % ties@.len() as int)
            < ties@.len()) by (nonlinear_arith)
            requires
                ties@.len() > 0,
        ;
    }
    Some(ties[seed % ties.len()])
}

/// Greedy set cover: repeatedly picks a store that covers the most open cards;
/// the seed decides among equals.
pub fn initial_simplest(input: &WizardInput, seed: usize) -> (start: Assignment)
    requires
        input.wf(),
    ensures
        start.choices@ == initial_choices(input, seed),
        valid_choices(input, start.choices@),
{
    let n: usize = input.cards.len();
    let m: usize = input.store_names.len();
    let mut choices: Vec<Option<usize>> = vec![None; n];
    let mut picked: Vec<bool> = vec![false; m];
    proof {
        assert(choices@ =~= Seq::new(input.n_cards(), |ci: int| None::<usize>));
        assert(picked@ =~= Seq::new(input.stores(), |si: int| false));
        assert forall|ci: int| 0 <= ci < choices@.len() implies #[trigger] valid_choice(
            input,
            ci,
            choices@[ci],
        ) by {}
        lemma_total_bounds(unpicked(picked@), 1);
    }
    loop
        invariant
            input.wf(),
            n == input.n_cards(),
            valid_choices(input, choices@),
            picked@.len() == input.stores(),
            initial_choices(input, seed) == cover(input, seed, choices@, picked@),
            total(unpicked(picked@)) >= 0,
        ensures
            valid_choices(input, choices@),
            initial_choices(input, seed) == choices@,
        decreases total(unpicked(picked@)),
    {
        let next = find_next_store(input, seed, &choices, &picked);
        match next {
            None => {
                break;
            },
            Some(si) => {
                let ghost ch = choices@;
                proof {
                    lemma_pick(picked@, si as int);
                    assert(input.store_ok(si as int));
                }
                let listed = &input.store_cards[si];
                let mut k: usize = 0;
                while k < listed.len()
                    invariant
                        input.wf(),
                        si < input.stores(),
                        ch.len() == input.n_cards(),
                        choices@.len() == ch.len(),
                        listed@ == input.store_cards@[si as int]@,
                        input.store_ok(si as int),
                        k <= listed@.len(),
                        forall|ci: int|
                            0 <= ci < ch.len() ==> #[trigger] choices@[ci] == if ch[ci] is None
                                && listed@.take(k as int).contains(ci as usize) {
                                input.cheapest(ci, si as int)
                            } else {
                                ch[ci]
                            },
                    decreases listed@.len() - k,
                {
                    let ci: usize = listed[k];
                    let ghost before = choices@;
                    let ghost t0 = listed@.take(k as int);
                    let ghost t1 = listed@.take(k + 1);
                    proof {
                        assert(listed@[k as int] < input.n_cards());
                        assert(t1 =~= t0.push(ci));
                        assert forall|c: usize| #[trigger] t1.contains(c) == (t0.contains(c) || c == ci) by {
                            if t1.contains(c) {
                                let j = choose|j: int| 0 <= j < t1.len() && t1[j] == c;
                                if j < t0.len() {
                                    assert(t0[j] == c);
                                }
                            }
                            if t0.contains(c) {
                                let j = choose|j: int| 0 <= j < t0.len() && t0[j] == c;
                                assert(t1[j] == c);
                            }
                            assert(t1[k as int] == ci);
                        }
                        if t0.contains(ci) {
                            let j = choose|j: int| 0 <= j < t0.len() && t0[j] == ci;
                            assert(listed@[j] < listed@[k as int]);
                        }
                    }
                    if choices[ci].is_none() {
                        if let Some((oi, _)) = input.cheapest_at(ci, si) {
                            choices[ci] = Some(oi);
                        }
                    }
                    k += 1;
                }
                proof {
                    assert(listed@.take(k as int) =~= listed@);
                    assert forall|ci: int| 0 <= ci < ch.len() implies #[trigger] choices@[ci]
                        == filled(input, ch, si as int)[ci] by {
                        let c = ci as usize;
                        assert(input.cell_ok(ci, si as int));
                        if ch[ci] is None && !listed@.contains(c) {
                            if let Some(oi) = input.cheapest(ci, si as int) {
                                assert(input.options(ci)[oi as int].store_idx == si);
                                assert(input.carried(ci, si as int));
                            }
                        }
                    }
                    assert(choices@ =~= filled(input, ch, si as int));
                    assert forall|ci: int| 0 <= ci < choices@.len() implies
                        #[trigger] valid_choice(input, ci, choices@[ci]) by {
                        assert(valid_choice(input, ci, ch[ci]));
                        assert(input.cell_ok(ci, si as int));
                    }
                }
                picked[si] = true;
            },
        }
    }
    Assignment { choices }
}

/// The start of a climb.  Both strategies start from a greedy set cover; the
/// score then guides the climb in different directions.
pub fn initial_assignment(input: &WizardInput, seed: usize) -> (start: Assignment)
    requires
        input.wf(),
    ensures
        start.choices@ == initial_choices(input, seed),
        valid_choices(input, start.choices@),
{
    initial_simplest(input, seed)
}

/// Every card of a picked store has its choice.
spec fn picked_done(input: &WizardInput, ch: Seq<Option<usize>>, picked: Seq<bool>) -> bool {
    forall|ci: int, si: int|
        0 <= ci < input.n_cards() && 0 <= si < input.stores() && #[trigger] picked[si]
            && #[trigger] input.cheapest(ci, si) is Some ==> ch[ci] is Some
}

proof fn lemma_best_gain(
    input: &WizardInput,
    ch: Seq<Option<usize>>,
    picked: Seq<bool>,
    k: int,
    si: int,
)
    requires
        0 <= si < k <= picked.len(),
        !picked[si],
    ensures
        best_gain(input, ch, picked, k) >= gain_of(input, ch, si),
    decreases k,
{
    if si < k - 1 {
        lemma_best_gain(input, ch, picked, k - 1, si);
    }
}

proof fn lemma_cover(
    input: &WizardInput,
    seed: usize,
    ch: Seq<Option<usize>>,
    picked: Seq<bool>,
    ci: int,
    si: int,
)
    requires
        input.wf(),
        ch.len() == input.n_cards(),
        picked.len() == input.stores(),
        picked_done(input, ch, picked),
        0 <= ci < input.n_cards(),
        0 <= si < input.stores(),
        input.cheapest(ci, si) is Some,
    ensures
        cover(input, seed, ch, picked)[ci] is Some,
    decreases total(unpicked(picked)),
{
    let m = input.stores() as int;
    let gain = best_gain(input, ch, picked, m);
    lemma_with_gain(input, ch, picked, gain, m);
    let ties = with_gain(input, ch, picked, gain, m);
    match next_store(input, seed, ch, picked) {
        Some(p) => {
            assert(0 <= seed as int % ties.len() as int && (seed as int % ties.len() as int)
                < ties.len()) by (nonlinear_arith)
                requires
                    ties.len() > 0,
            ;
            assert(p < picked.len() && !picked[p as int]);
            lemma_pick(picked, p as int);
            let next = filled(input, ch, p as int);
            let marks = picked.update(p as int, true);
            assert forall|c: int, s: int|
                0 <= c < input.n_cards() && 0 <= s < input.stores() && #[trigger] marks[s]
                    && #[trigger] input.cheapest(c, s) is Some implies next[c] is Some by {
                if s != p {
                    assert(picked[s]);
                }
            }
            lemma_cover(input, seed, next, marks, ci, si);
        },
        None => {
            if ch[ci] is None {
                assert(!picked[si]);
                assert(input.store_ok(si));
                assert(input.cell_ok(ci, si));
                let oi = input.cheapest(ci, si)->0;
                assert(input.options(ci)[oi as int].store_idx == si);
                assert(input.carried(ci, si));
                let listed = input.store_cards@[si]@;
                assert(listed.contains(ci as usize));
                let k = choose|k: int| 0 <= k < listed.len() && listed[k] == ci as usize;
                let flags = open_flags(input, ch, si);
                lemma_total_bounds(flags, 1);
                assert(flags[k] <= total(flags));
                lemma_best_gain(input, ch, picked, m, si);
            }
        },
    }
}

/// The greedy start buys every card that some store carries.
pub proof fn law_initial_covers(input: &WizardInput, seed: usize, ci: int, si: int)
    requires
        input.wf(),
        0 <= ci < input.n_cards(),
        0 <= si < input.stores(),
        input.cheapest(ci, si) is Some,
    ensures
        initial_choices(input, seed)[ci] is Some,
{
    lemma_cover(
        input,
        seed,
        Seq::new(input.n_cards(), |ci: int| None::<usize>),
        Seq::new(input.stores(), |si: int| false),
        ci,
        si,
    );
}

// Random moves

/// A choice other than `cur` for a card with `options` listings.
pub open spec fn other_choice(cur: Option<usize>, new: Option<usize>, options: nat) -> bool {
    &&& new != cur
    &&& new matches Some(oi) ==> oi < options
}

/// One of the choices other than `cur`, each as likely as the others.
fn random_other(cur: Option<usize>, options: usize, rng: &mut StdRng) -> (new: Option<usize>)
    requires
        options > 0,
        cur matches Some(oi) ==> oi < options,
    ensures
        other_choice(cur, new, options as nat),
{
    let skip_at: usize = match cur {
        Some(oi) => oi,
        None => options,
    };
    let r = index_below(rng, options);
    if r < skip_at {
        Some(r)
    } else if r + 1 < options {
        Some(r + 1)
    } else {
        None
    }
}

/// A random move of one random card to another choice; nothing if the card has
/// no listing.
pub fn random_move(
    current: &ScoredAssignment,
    input: &WizardInput,
    config: &WizardConfig,
    rng: &mut StdRng,
) -> (step: Option<(usize, Option<usize>)>)
    requires
        input.wf(),
        current.wf(input, config),
        input.n_cards() > 0,
    ensures
        match step {
            Some((ci, new)) => ci < input.n_cards() && other_choice(
                current.choices@[ci as int],
                new,
                input.options(ci as int).len(),
            ),
            None => exists|ci: int|
                0 <= ci < input.n_cards() && #[trigger] input.options(ci).len() == 0,
        },
{
    let ci = index_below(rng, input.cards.len());
    let options: usize = input.cards[ci].options.len();
    if options == 0 {
        assert(input.options(ci as int).len() == 0);
        return None;
    }
    assert(valid_choice(input, ci as int, current.choices@[ci as int]));
    let new = random_other(current.choices[ci], options, rng);
    Some((ci, new))
}

/// How many cards a perturbation of `percent` of `n` cards moves.
pub open spec fn perturb_size(n: int, percent: int) -> int {
    let k = (n * percent + 99) / 100;
    if k < n {
        k
    } else {
        n
    }
}

/// `picks` are the cards that were moved: each of them that has a listing has
/// another choice, and every other card keeps its choice.
pub open spec fn moved(
    input: &WizardInput,
    before: Seq<Option<usize>>,
    after: Seq<Option<usize>>,
    picks: Seq<usize>,
) -> bool {
    &&& picks.no_duplicates()
    &&& forall|p: int| 0 <= p < picks.len() ==> #[trigger] picks[p] < input.n_cards()
    &&& forall|ci: int|
        0 <= ci < input.n_cards() ==> (#[trigger] after[ci] != before[ci] <==> picks.contains(
            ci as usize,
        ) && input.options(ci).len() > 0)
}

/// Picks `count` distinct numbers below `n`.
fn pick_distinct(n: usize, count: usize, rng: &mut StdRng) -> (picks: Vec<usize>)
    requires
        count <= n,
    ensures
        picks@.len() == count,
        picks@.no_duplicates(),
        forall|p: int| 0 <= p < picks@.len() ==> #[trigger] picks@[p] < n,
{
    let mut indices: Vec<usize> = Vec::new();
    let mut i: usize = 0;
    while i < n
        invariant
            i <= n,
            indices@.len() == i,
            forall|k: int| 0 <= k < i ==> #[trigger] indices@[k] == k,
        decreases n - i,
    {
        indices.push(i);
        i += 1;
    }
    let mut k: usize = 0;
    while k < count
        invariant
            k <= count <= n,
            indices@.len() == n,
            indices@.no_duplicates(),
            forall|p: int| 0 <= p < n ==> #[trigger] indices@[p] < n,
        decreases count - k,
    {
        let j: usize = k + index_below(rng, n - k);
        let a: usize = indices[k];
        let b: usize = indices[j];
        let ghost before = indices@;
        indices[k] = b;
        indices[j] = a;
        proof {
            assert forall|x: int, y: int| 0 <= x < n && 0 <= y < n && x != y implies indices@[x]
                != indices@[y] by {
                let x0 = if x == k {
                    j as int
                } else if x == j {
                    k as int
                } else {
                    x
                };
                let y0 = if y == k {
                    j as int
                } else if y == j {
                    k as int
                } else {
                    y
                };
                assert(indices@[x] == before[x0]);
                assert(indices@[y] == before[y0]);
            }
            assert forall|p: int| 0 <= p < n implies #[trigger] indices@[p] < n by {
                if p == k {
                    assert(before[j as int] < n);
                } else if p == j {
                    assert(before[k as int] < n);
                } else {
                    assert(before[p] < n);
                }
            }
        }
        k += 1;
    }
    let ghost full = indices@;
    indices.truncate(count);
    proof {
        assert forall|p: int| 0 <= p < indices@.len() implies #[trigger] indices@[p] < n by {
            assert(full[p] < n);
        }
    }
    indices
}

/// A copy of the assignment in which a share of the cards was randomly given
/// other choices.
pub fn perturb_with_frac(
    current: &ScoredAssignment,
    input: &WizardInput,
    config: &WizardConfig,
    rng: &mut StdRng,
    percent: u32,
) -> (perturbed: ScoredAssignment)
    requires
        input.wf(),
        current.wf(input, config),
        percent <= 100,
    ensures
        perturbed.wf(input, config),
        exists|picks: Seq<usize>| #[trigger]
            moved(input, current.choices@, perturbed.choices@, picks) && picks.len()
                == perturb_size(input.n_cards() as int, percent as int),
{
    let n: usize = input.cards.len();
    assert(n * percent <= 0xffff_ffff * 100) by (nonlinear_arith)
        requires
            n <= u32::MAX,
            percent <= 100,
    ;
    let wide: u64 = (n as u64 * percent as u64 + 99) / 100;
    let count: usize = if wide < n as u64 {
        wide as usize
    } else {
        n
    };
    let picks = pick_distinct(n, count, rng);
    let ghost ch = current.choices@;
    let mut perturbed = current.duplicate();
    let mut k: usize = 0;
    while k < picks.len()
        invariant
            input.wf(),
            perturbed.wf(input, config),
            valid_choices(input, ch),
            ch.len() == input.n_cards(),
            picks@.no_duplicates(),
            forall|p: int| 0 <= p < picks@.len() ==> #[trigger] picks@[p] < input.n_cards(),
            k <= picks@.len(),
            forall|ci: int|
                0 <= ci < ch.len() ==> (#[trigger] perturbed.choices@[ci] != ch[ci]
                    <==> picks@.take(k as int).contains(ci as usize) && input.options(ci).len()
                    > 0),
        decreases picks@.len() - k,
    {
        let ci: usize = picks[k];
        let ghost t0 = picks@.take(k as int);
        let ghost t1 = picks@.take(k + 1);
        proof {
            assert(picks@[k as int] < input.n_cards());
            assert(t1 =~= t0.push(ci));
            assert forall|c: usize| #[trigger] t1.contains(c) == (t0.contains(c) || c == ci) by {
                if t1.contains(c) {
                    let j = choose|j: int| 0 <= j < t1.len() && t1[j] == c;
                    if j < t0.len() {
                        assert(t0[j] == c);
                    }
                }
                if t0.contains(c) {
                    let j = choose|j: int| 0 <= j < t0.len() && t0[j] == c;
                    assert(t1[j] == c);
                }
                assert(t1[k as int] == ci);
            }
            if t0.contains(ci) {
                let j = choose|j: int| 0 <= j < t0.len() && t0[j] == ci;
                assert(picks@[j] == picks@[k as int]);
            }
            assert(valid_choice(input, ci as int, ch[ci as int]));
            assert(perturbed.choices@[ci as int] == ch[ci as int]);
        }
        let options: usize = input.cards[ci].options.len();
        if options > 0 {
            let new = random_other(perturbed.choices[ci], options, rng);
            perturbed.apply_single_move(ci, new, input, config);
        }
        k += 1;
    }
    proof {
        assert(picks@.take(k as int) =~= picks@);
        assert(moved(input, ch, perturbed.choices@, picks@));
    }
    perturbed
}

// Consolidation

/// The card's first, and so cheapest, listing from `at` on at a store other than `from`.
pub open spec fn first_elsewhere(input: &WizardInput, ci: int, from: int, at: int) -> Option<usize>
    decreases input.options(ci).len() - at,
{
    let opts = input.options(ci);
    if at < 0 || at >= opts.len() {
        None
    } else if opts[at].store_idx != from {
        Some(at as usize)
    } else {
        first_elsewhere(input, ci, from, at + 1)
    }
}

/// Every card of store `from` at its cheapest listing elsewhere; cards without
/// one stay.
pub open spec fn consolidated(input: &WizardInput, ch: Seq<Option<usize>>, from: int) -> Seq<
    Option<usize>,
> {
    Seq::new(
        ch.len(),
        |ci: int|
            if is_at(input, ci, ch[ci], from) && first_elsewhere(input, ci, from, 0) is Some {
                first_elsewhere(input, ci, from, 0)
            } else {
                ch[ci]
            },
    )
}

/// Some card of store `from` can move elsewhere.
pub open spec fn can_consolidate(input: &WizardInput, ch: Seq<Option<usize>>, from: int) -> bool {
    exists|ci: int|
        0 <= ci < ch.len() && #[trigger] is_at(input, ci, ch[ci], from) && first_elsewhere(
            input,
            ci,
            from,
            0,
        ) is Some
}

fn find_elsewhere(input: &WizardInput, ci: usize, from: usize) -> (oi: Option<usize>)
    requires
        input.wf(),
        ci < input.n_cards(),
    ensures
        oi == first_elsewhere(input, ci as int, from as int, 0),
        oi matches Some(o) ==> o < input.options(ci as int).len(),
{
    let opts = &input.cards[ci].options;
    let mut at: usize = 0;
    while at < opts.len()
        invariant
            ci < input.n_cards(),
            opts@ == input.options(ci as int),
            at <= opts@.len(),
            first_elsewhere(input, ci as int, from as int, 0) == first_elsewhere(
                input,
                ci as int,
                from as int,
                at as int,
            ),
        decreases opts@.len() - at,
    {
        if opts[at].store_idx != from {
            return Some(at);
        }
        at += 1;
    }
    None
}

/// Moves all cards of store `from` that can move to their cheapest listing
/// elsewhere; nothing if none can.
pub fn consolidate(
    current: &ScoredAssignment,
    from: usize,
    input: &WizardInput,
    config: &WizardConfig,
) -> (result: Option<ScoredAssignment>)
    requires
        input.wf(),
        current.wf(input, config),
        from < input.stores(),
    ensures
        result is Some <==> can_consolidate(input, current.choices@, from as int),
        result matches Some(r) ==> r.wf(input, config) && r.choices@ == consolidated(
            input,
            current.choices@,
            from as int,
        ),
{
    let ghost ch = current.choices@;
    let mut result = current.duplicate();
    let mut any: bool = false;
    let mut a: usize = 0;
    while a < current.cards_at[from].len()
        invariant
            input.wf(),
            current.wf(input, config),
            result.wf(input, config),
            ch == current.choices@,
            from < input.stores(),
            a <= current.cards_at@[from as int]@.len(),
            any ==> can_consolidate(input, ch, from as int),
            !any ==> forall|p: int|
                0 <= p < a ==> first_elsewhere(
                    input,
                    (#[trigger] current.cards_at@[from as int]@[p]) as int,
                    from as int,
                    0,
                ) is None,
            forall|ci: int|
                0 <= ci < ch.len() ==> #[trigger] result.choices@[ci] == if is_at(
                    input,
                    ci,
                    ch[ci],
                    from as int,
                ) && current.card_pos@[ci] < a {
                    consolidated(input, ch, from as int)[ci]
                } else {
                    ch[ci]
                },
        decreases current.cards_at@[from as int]@.len() - a,
    {
        let ci: usize = current.cards_at[from][a];
        proof {
            assert(entry_ok(
                input,
                current.choices@,
                current.cards_at@,
                current.card_pos@,
                from as int,
                a as int,
            ));
        }
        if let Some(oi) = find_elsewhere(input, ci, from) {
            result.apply_single_move(ci, Some(oi), input, config);
            any = true;
            assert(is_at(input, ci as int, ch[ci as int], from as int));
        }
        proof {
            assert forall|k: int| 0 <= k < ch.len() implies #[trigger] result.choices@[k] == if is_at(
                input,
                k,
                ch[k],
                from as int,
            ) && current.card_pos@[k] < a + 1 {
                consolidated(input, ch, from as int)[k]
            } else {
                ch[k]
            } by {
                assert(card_listed(
                    input,
                    current.choices@,
                    current.cards_at@,
                    current.card_pos@,
                    k,
                ));
            }
        }
        a += 1;
    }
    proof {
        assert forall|ci: int|
            0 <= ci < ch.len() && #[trigger] is_at(input, ci, ch[ci], from as int) implies
            current.card_pos@[ci] < a && current.cards_at@[from as int]@[current.card_pos@[ci] as int]
            == ci by {
            assert(card_listed(input, current.choices@, current.cards_at@, current.card_pos@, ci));
        }
        assert(result.choices@ =~= consolidated(input, ch, from as int));
    }
    if any {
        Some(result)
    } else {
        None
    }
}

/// For few stores: empties a random used store into the others.  Nothing with
/// fewer than two stores in use, or when no card of the store can move.
pub fn perturb_consolidate(
    current: &ScoredAssignment,
    input: &WizardInput,
    config: &WizardConfig,
    rng: &mut StdRng,
) -> (result: Option<ScoredAssignment>)
    requires
        input.wf(),
        current.wf(input, config),
    ensures
        match result {
            Some(r) => r.wf(input, config) && stores_used(input, current.choices@) > 1
                && exists|from: int|
                0 <= from < input.stores() && store_count(input, current.choices@, from) > 0
                    && #[trigger] can_consolidate(input, current.choices@, from) && r.choices@
                    == consolidated(input, current.choices@, from),
            None => stores_used(input, current.choices@) <= 1 || exists|from: int|
                0 <= from < input.stores() && store_count(input, current.choices@, from) > 0
                    && !#[trigger] can_consolidate(input, current.choices@, from),
        },
{
    let ghost ch = current.choices@;
    let m: usize = input.store_names.len();
    let mut used: Vec<usize> = Vec::new();
    let mut si: usize = 0;
    let ghost flags = used_flags(input, ch);
    assert(flags.take(0) =~= Seq::empty());
    while si < m
        invariant
            current.wf(input, config),
            ch == current.choices@,
            m == input.stores(),
            flags == used_flags(input, ch),
            si <= m,
            used@.len() == total(flags.take(si as int)),
            forall|p: int|
                0 <= p < used@.len() ==> (#[trigger] used@[p]) < m && store_count(
                    input,
                    ch,
                    used@[p] as int,
                ) > 0,
        decreases m - si,
    {
        proof {
            lemma_total_take(flags, si as int);
            assert(current.store_card_counts@[si as int] == store_count(input, ch, si as int));
        }
        if current.store_card_counts[si] > 0 {
            used.push(si);
        }
        si += 1;
    }
    assert(flags.take(m as int) =~= flags);
    if used.len() <= 1 {
        return None;
    }
    let pick = index_below(rng, used.len());
    let from: usize = used[pick];
    assert(used@[pick as int] < m);
    let result = consolidate(current, from, input, config);
    assert(can_consolidate(input, ch, from as int) || !can_consolidate(input, ch, from as int));
    result
}

// Annealing

/// A random walk over assignments that remembers the best one it met.  Which
/// worsening steps are taken is the caller's decision.
pub struct Annealer {
    pub current: ScoredAssignment,
    pub best_choices: Vec<Option<usize>>,
    pub best_score: u64,
}

impl Annealer {
    pub open spec fn wf(&self, input: &WizardInput, config: &WizardConfig) -> bool {
        &&& self.current.wf(input, config)
        &&& valid_choices(input, self.best_choices@)
        &&& self.best_score == score(input, config, self.best_choices@)
        &&& self.best_score <= self.current.score
    }

    /// A walk from `initial`.
    pub fn new(initial: &ScoredAssignment, input: &WizardInput, config: &WizardConfig) -> (walk:
        Self)
        requires
            initial.wf(input, config),
        ensures
            walk.wf(input, config),
            walk.current.choices@ == initial.choices@,
            walk.best_score == initial.score,
    {
        let current = initial.duplicate();
        let best_choices = current.choices.clone();
        assert(best_choices@ =~= initial.choices@);
        let best_score: u64 = current.score;
        Annealer { current, best_choices, best_score }
    }

    /// A random step and the change of score that it would bring.
    pub fn propose(
        &self,
        input: &WizardInput,
        config: &WizardConfig,
        rng: &mut StdRng,
    ) -> (step: Option<(usize, Option<usize>, i64)>)
        requires
            input.wf(),
            self.wf(input, config),
            input.n_cards() > 0,
        ensures
            match step {
                Some((ci, new, delta)) => ci < input.n_cards() && other_choice(
                    self.current.choices@[ci as int],
                    new,
                    input.options(ci as int).len(),
                ) && delta == score_change(
                    input,
                    config,
                    self.current.choices@,
                    ci as int,
                    new,
                ),
                None => exists|ci: int|
                    0 <= ci < input.n_cards() && #[trigger] input.options(ci).len() == 0,
            },
    {
        match random_move(&self.current, input, config, rng) {
            Some((ci, new)) => {
                let delta = self.current.try_single_move_delta(ci, new, input, config);
                Some((ci, new, delta))
            },
            None => None,
        }
    }

    /// Takes a step and remembers the assignment if it is the best so far.
    pub fn take(
        &mut self,
        ci: usize,
        new: Option<usize>,
        input: &WizardInput,
        config: &WizardConfig,
    )
        requires
            input.wf(),
            old(self).wf(input, config),
            ci < input.n_cards(),
            valid_choice(input, ci as int, new),
        ensures
            final(self).wf(input, config),
            final(self).current.choices@ == old(self).current.choices@.update(ci as int, new),
            final(self).best_score == if final(self).current.score < old(self).best_score {
                final(self).current.score
            } else {
                old(self).best_score
            },
    {
        self.current.apply_single_move(ci, new, input, config);
        if self.current.score < self.best_score {
            self.best_score = self.current.score;
            let best = self.current.choices.clone();
            assert(best@ =~= self.current.choices@);
            self.best_choices = best;
        }
    }

    /// The best assignment met on the walk.
    pub fn finish(self, input: &WizardInput, config: &WizardConfig) -> (best: ScoredAssignment)
        requires
            input.wf(),
            self.wf(input, config),
        ensures
            best.wf(input, config),
            best.score == self.best_score,
    {
        proof {
            lemma_fitted_valid(input, self.best_choices@);
        }
        ScoredAssignment::new(Assignment { choices: self.best_choices }, input, config)
    }
}

/// The first of the assignments with the lowest score.
pub fn lowest(found: Vec<ScoredAssignment>, input: &WizardInput, config: &WizardConfig) -> (best:
    Option<ScoredAssignment>)
    requires
        forall|i: int| 0 <= i < found@.len() ==> (#[trigger] found@[i]).wf(input, config),
    ensures
        best is None <==> found@.len() == 0,
        best matches Some(b) ==> {
            &&& b.wf(input, config)
            &&& forall|i: int| 0 <= i < found@.len() ==> b.score <= (#[trigger] found@[i]).score
            &&& exists|i: int|
                0 <= i < found@.len() && #[trigger] found@[i] == b && forall|k: int|
                    0 <= k < i ==> (#[trigger] found@[k]).score > b.score
        },
{
    let mut found = found;
    if found.len() == 0 {
        return None;
    }
    let mut at: usize = 0;
    let mut i: usize = 1;
    while i < found.len()
        invariant
            0 <= at < i <= found@.len(),
            forall|k: int| 0 <= k < i ==> found@[at as int].score <= (#[trigger] found@[k]).score,
            forall|k: int| 0 <= k < at ==> (#[trigger] found@[k]).score > found@[at as int].score,
        decreases found@.len() - i,
    {
        if found[i].score < found[at].score {
            at = i;
        }
        i += 1;
    }
    let best = found.swap_remove(at);
    Some(best)
}

// Iterated local search

/// Restarts of the first phase.
pub const RESTARTS: usize = 50;

/// Most rounds of the second phase.
pub const ROUNDS: u32 = 12;

/// Rounds without improvement after which the search ends.
pub const PATIENCE: u32 = 3;

/// Annealing walks per round.
pub const WALKERS: usize = 4;

/// A candidate of one round.
pub struct Round {
    pub candidate: ScoredAssignment,
    /// Random seeds of the annealing walks to run from the candidate; none when
    /// the candidate is to be taken as it is.
    pub walks: Vec<u64>,
}

/// Iterated local search: the best assignment so far and the state of the rounds.
pub struct LocalSearch {
    pub best: ScoredAssignment,
    pub round: u32,
    pub no_improve: u32,
}

/// A `LocalSearch` as plain values.
pub struct SearchState {
    pub best: Seq<Option<usize>>,
    pub round: u32,
    pub no_improve: u32,
}

impl View for LocalSearch {
    type V = SearchState;

    open spec fn view(&self) -> SearchState {
        SearchState {
            best: self.best.choices@,
            round: self.round,
            no_improve: self.no_improve,
        }
    }
}

/// The first of the assignments with the lowest score.
pub open spec fn first_lowest(
    input: &WizardInput,
    config: &WizardConfig,
    list: Seq<Seq<Option<usize>>>,
    ch: Seq<Option<usize>>,
) -> bool {
    exists|i: int|
        0 <= i < list.len() && ch == #[trigger] list[i] && (forall|k: int|
            0 <= k < list.len() ==> score(input, config, ch) <= score(
                input,
                config,
                #[trigger] list[k],
            )) && (forall|k: int|
            0 <= k < i ==> score(input, config, ch) < score(input, config, #[trigger] list[k]))
}

/// Climbing from the choices `a`, with the cards of each store ascending, ends at
/// the choices `b`.
pub open spec fn climbs_afresh(
    input: &WizardInput,
    config: &WizardConfig,
    a: Seq<Option<usize>>,
    b: Seq<Option<usize>>,
) -> bool {
    exists|t: Spread| #[trigger] climbs_from(input, config, in_order(input, a), t) && t.choices == b
}

/// These are the ends of climbs from the greedy starts.
pub open spec fn greedy_tops(
    input: &WizardInput,
    config: &WizardConfig,
    tops: Seq<Seq<Option<usize>>>,
) -> bool {
    &&& tops.len() == RESTARTS
    &&& forall|i: int|
        0 <= i < tops.len() ==> climbs_afresh(
            input,
            config,
            initial_choices(input, i as usize),
            #[trigger] tops[i],
        )
}

/// The first of the lowest ends of climbs from the greedy starts.
pub open spec fn greedy_best(
    input: &WizardInput,
    config: &WizardConfig,
    best: Seq<Option<usize>>,
) -> bool {
    exists|tops: Seq<Seq<Option<usize>>>| #[trigger]
        greedy_tops(input, config, tops) && first_lowest(input, config, tops, best)
}

/// `a` unless `b` scores lower.
pub open spec fn lower(
    input: &WizardInput,
    config: &WizardConfig,
    a: Seq<Option<usize>>,
    b: Seq<Option<usize>>,
) -> Seq<Option<usize>> {
    if score(input, config, a) <= score(input, config, b) {
        a
    } else {
        b
    }
}

/// The end of a climb from `start`, unless `g` scores lower.
pub open spec fn climbed_or(
    input: &WizardInput,
    config: &WizardConfig,
    start: Seq<Option<usize>>,
    g: Seq<Option<usize>>,
    best: Seq<Option<usize>>,
) -> bool {
    exists|top: Seq<Option<usize>>| #[trigger]
        climbs_afresh(input, config, start, top) && best == lower(input, config, top, g)
}

/// The end of a climb from the seed, unless `g` scores lower.
pub open spec fn seeded(
    input: &WizardInput,
    config: &WizardConfig,
    seed: Option<Seq<Option<usize>>>,
    g: Seq<Option<usize>>,
    best: Seq<Option<usize>>,
) -> bool {
    match seed {
        None => best == g,
        Some(choices) => climbed_or(input, config, fitted(input, choices), g, best),
    }
}

/// What the first phase can end with: the end of a climb from the seed, unless
/// the best from the greedy starts scores lower.
pub open spec fn started(
    input: &WizardInput,
    config: &WizardConfig,
    seed: Option<Seq<Option<usize>>>,
    best: Seq<Option<usize>>,
) -> bool {
    exists|g: Seq<Option<usize>>| #[trigger]
        greedy_best(input, config, g) && seeded(input, config, seed, g, best)
}

/// Another round is due.
pub open spec fn due(s: SearchState) -> bool {
    s.round < ROUNDS && s.no_improve < PATIENCE
}

/// A round that empties a store instead of scattering cards.
pub open spec fn gathers(config: &WizardConfig, s: SearchState) -> bool {
    config.strategy == Strategy::Simplest && s.round % 2 == 0
}

/// Share of the cards that a perturbation moves, in percent.
pub open spec fn perturb_percent(tolerance: int) -> int {
    if tolerance == 0 {
        50
    } else if tolerance == 1 {
        40
    } else {
        30
    }
}

/// A store in use that can be emptied into the others, and another one in use.
pub open spec fn emptied(input: &WizardInput, ch: Seq<Option<usize>>, from: int) -> bool {
    &&& stores_used(input, ch) > 1
    &&& 0 <= from < input.stores()
    &&& store_count(input, ch, from) > 0
    &&& can_consolidate(input, ch, from)
}

/// Emptying a store can fail: a single store is in use, or none of the cards of
/// some store in use can move.
pub open spec fn may_not_empty(input: &WizardInput, ch: Seq<Option<usize>>) -> bool {
    ||| stores_used(input, ch) <= 1
    ||| exists|from: int|
        0 <= from < input.stores() && store_count(input, ch, from) > 0 && !#[trigger] can_consolidate(
            input,
            ch,
            from,
        )
}

/// What a round can start from: the best assignment with a store emptied into
/// the others, or with a share of the cards moved.
pub open spec fn perturbation(
    input: &WizardInput,
    config: &WizardConfig,
    s: SearchState,
    p: Seq<Option<usize>>,
) -> bool {
    ||| gathers(config, s) && exists|from: int| #[trigger]
        emptied(input, s.best, from) && p == consolidated(input, s.best, from)
    ||| (!gathers(config, s) || may_not_empty(input, s.best)) && exists|picks: Seq<usize>| #[trigger]
        moved(input, s.best, p, picks) && picks.len() == perturb_size(
            input.n_cards() as int,
            perturb_percent(config.tolerance as int),
        )
}

/// The state after a round whose last climb ended at `top`.
pub open spec fn after_round(
    input: &WizardInput,
    config: &WizardConfig,
    s: SearchState,
    top: Seq<Option<usize>>,
) -> SearchState {
    if score(input, config, top) < score(input, config, s.best) {
        SearchState { best: top, round: (s.round + 1) as u32, no_improve: 0 }
    } else {
        SearchState {
            best: s.best,
            round: (s.round + 1) as u32,
            no_improve: (s.no_improve + 1) as u32,
        }
    }
}

proof fn lemma_afresh_same(
    input: &WizardInput,
    config: &WizardConfig,
    a: Seq<Option<usize>>,
    b: Seq<Option<usize>>,
    c: Seq<Option<usize>>,
)
    requires
        climbs_afresh(input, config, a, b),
        climbs_afresh(input, config, a, c),
    ensures
        b == c,
{
    let t = choose|t: Spread| #[trigger]
        climbs_from(input, config, in_order(input, a), t) && t.choices == b;
    let u = choose|t: Spread| #[trigger]
        climbs_from(input, config, in_order(input, a), t) && t.choices == c;
    law_climb_is_determined(input, config, in_order(input, a), t, u);
}

proof fn lemma_greedy_same(
    input: &WizardInput,
    config: &WizardConfig,
    a: Seq<Option<usize>>,
    b: Seq<Option<usize>>,
)
    requires
        greedy_best(input, config, a),
        greedy_best(input, config, b),
    ensures
        a == b,
{
    let tops = choose|tops: Seq<Seq<Option<usize>>>| #[trigger]
        greedy_tops(input, config, tops) && first_lowest(input, config, tops, a);
    let others = choose|tops: Seq<Seq<Option<usize>>>| #[trigger]
        greedy_tops(input, config, tops) && first_lowest(input, config, tops, b);
    assert forall|i: int| 0 <= i < tops.len() implies tops[i] == others[i] by {
        lemma_afresh_same(
            input,
            config,
            initial_choices(input, i as usize),
            tops[i],
            others[i],
        );
    }
    assert(tops =~= others);
}

/// The first phase leaves nothing open: an input, a configuration and a seed give
/// one assignment.
pub proof fn law_start_is_determined(
    input: &WizardInput,
    config: &WizardConfig,
    seed: Option<Seq<Option<usize>>>,
    a: Seq<Option<usize>>,
    b: Seq<Option<usize>>,
)
    requires
        started(input, config, seed, a),
        started(input, config, seed, b),
    ensures
        a == b,
{
    let g = choose|g: Seq<Option<usize>>| #[trigger]
        greedy_best(input, config, g) && seeded(input, config, seed, g, a);
    let h = choose|g: Seq<Option<usize>>| #[trigger]
        greedy_best(input, config, g) && seeded(input, config, seed, g, b);
    lemma_greedy_same(input, config, g, h);
    if let Some(choices) = seed {
        let from = fitted(input, choices);
        assert(climbed_or(input, config, from, g, a) && climbed_or(input, config, from, g, b));
        let s = choose|top: Seq<Option<usize>>| #[trigger]
            climbs_afresh(input, config, from, top) && a == lower(input, config, top, g);
        let t = choose|top: Seq<Option<usize>>| #[trigger]
            climbs_afresh(input, config, from, top) && b == lower(input, config, top, g);
        lemma_afresh_same(input, config, from, s, t);
    }
}

/// The best of climbing from the greedy starts.
fn climb_greedily(input: &WizardInput, config: &WizardConfig) -> (best: ScoredAssignment)
    requires
        input.wf(),
    ensures
        best.wf(input, config),
        local_optimum(input, config, best.choices@),
        greedy_best(input, config, best.choices@),
        forall|i: usize|
            i < RESTARTS ==> best.score <= score(
                input,
                config,
                #[trigger] initial_choices(input, i),
            ),
{
    let climb = |i: usize| -> (top: ScoredAssignment)
        ensures
            top.wf(input, config),
            climbs_afresh(input, config, initial_choices(input, i), top.choices@),
            top.score <= score(input, config, initial_choices(input, i)),
    {
        let start = initial_assignment(input, i);
        proof {
            lemma_fitted_valid(input, start.choices@);
        }
        let fresh = ScoredAssignment::new(start, input, config);
        let ghost first = fresh.spread();
        let top = hill_climb(fresh, input, config);
        assert(climbs_from(input, config, first, top.spread()));
        assert(climbs_afresh(input, config, initial_choices(input, i), top.choices@));
        top
    };
    let tops = map_indices(RESTARTS, climb);
    let ghost all = tops@;
    let ghost ends = all.map_values(|t: ScoredAssignment| t.choices@);
    proof {
        assert forall|i: int| 0 <= i < all.len() implies (#[trigger] all[i]).wf(input, config)
            && climbs_afresh(input, config, initial_choices(input, i as usize), all[i].choices@)
            && all[i].score <= score(input, config, initial_choices(input, i as usize)) by {
            let j = i as usize;
            assert(all[j as int] == all[i]);
        }
        assert forall|i: int| 0 <= i < ends.len() implies climbs_afresh(
            input,
            config,
            initial_choices(input, i as usize),
            #[trigger] ends[i],
        ) by {
            assert(all[i].wf(input, config));
        }
        assert(greedy_tops(input, config, ends));
    }
    let best = match lowest(tops, input, config) {
        Some(best) => best,
        None => vstd::pervasive::unreached(),
    };
    let ghost g = best.choices@;
    proof {
        assert forall|i: usize| i < RESTARTS implies best.score
            <= score(input, config, #[trigger] initial_choices(input, i)) by {
            assert(best.score <= all[i as int].score);
        }
        let i = choose|i: int|
            0 <= i < all.len() && #[trigger] all[i] == best && forall|k: int|
                0 <= k < i ==> (#[trigger] all[k]).score > best.score;
        assert(ends[i] == g);
        assert forall|k: int| 0 <= k < ends.len() implies score(input, config, g) <= score(
            input,
            config,
            #[trigger] ends[k],
        ) && (k < i ==> score(input, config, g) < score(input, config, ends[k])) by {
            assert(all[k].wf(input, config));
        }
        assert(first_lowest(input, config, ends, g));
        assert(greedy_best(input, config, g));
    }
    best
}

impl LocalSearch {
    pub open spec fn wf(&self, input: &WizardInput, config: &WizardConfig) -> bool {
        &&& self.best.wf(input, config)
        &&& self.round <= ROUNDS
        &&& self.no_improve <= PATIENCE
        &&& local_optimum(input, config, self.best.choices@)
    }

    /// The best of climbing from many greedy starts, and from `seed` where there
    /// is one: the result never scores above the seed.
    pub fn start(
        input: &WizardInput,
        config: &WizardConfig,
        seed: Option<&Vec<Option<usize>>>,
    ) -> (search: Self)
        requires
            input.wf(),
            ensures
            search.wf(input, config),
            search.round == 0,
            search.no_improve == 0,
            started(
                input,
                config,
                match seed {
                    Some(choices) => Some(choices@),
                    None => None,
                },
                search.best.choices@,
            ),
            seed matches Some(choices) ==> search.best.score <= score(
                input,
                config,
                fitted(input, choices@),
            ),
            forall|i: usize|
                i < RESTARTS ==> search.best.score <= score(
                    input,
                    config,
                    #[trigger] initial_choices(input, i),
                ),
    {
        let mut best = climb_greedily(input, config);
        let ghost g = best.choices@;
        if let Some(choices) = seed {
            let copy = choices.clone();
            assert(copy@ =~= choices@);
            let fresh = ScoredAssignment::new(Assignment { choices: copy }, input, config);
            let ghost first = fresh.spread();
            let top = hill_climb(fresh, input, config);
            assert(climbs_from(input, config, first, top.spread()));
            assert(climbs_afresh(input, config, fitted(input, choices@), top.choices@));
            let ghost t = top.choices@;
            assert(top.score == score(input, config, t) && best.score == score(input, config, g));
            if top.score <= best.score {
                best = top;
            }
            assert(best.choices@ == lower(input, config, t, g));
            assert(climbed_or(input, config, fitted(input, choices@), g, best.choices@));
            assert(started(input, config, Some(choices@), best.choices@));
        } else {
            assert(started(input, config, None, best.choices@));
        }
        LocalSearch { best, round: 0, no_improve: 0 }
    }

    /// The candidate of the next round: a perturbation of the best assignment,
    /// climbed to a local optimum.  Under `Simplest`, every other round empties a
    /// store instead of scattering cards, and such a candidate is not annealed.
    pub fn next_round(
        &self,
        input: &WizardInput,
        config: &WizardConfig,
        rng: &mut StdRng,
    ) -> (round: Option<Round>)
        requires
            input.wf(),
            self.wf(input, config),
            ensures
            round is Some <==> due(self@),
            round matches Some(r) ==> {
                &&& r.candidate.wf(input, config)
                &&& exists|p: Seq<Option<usize>>| #[trigger]
                    perturbation(input, config, self@, p) && climbs(
                        input,
                        config,
                        p,
                        r.candidate.choices@,
                    )
                &&& r.walks@.len() == if gathers(config, self@) {
                    0
                } else {
                    WALKERS as nat
                }
            },
    {
        if self.round >= ROUNDS || self.no_improve >= PATIENCE {
            return None;
        }
        let ghost ch = self.best.choices@;
        let percent: u32 = if config.tolerance == 0 {
            50
        } else if config.tolerance == 1 {
            40
        } else {
            30
        };
        let gathering: bool = config.strategy == Strategy::Simplest && self.round % 2 == 0;
        let consolidation: Option<ScoredAssignment> = if gathering {
            perturb_consolidate(&self.best, input, config, rng)
        } else {
            None
        };
        let start = match consolidation {
            Some(s) => {
                proof {
                    let from = choose|from: int|
                        0 <= from < input.stores() && store_count(input, ch, from) > 0
                            && #[trigger] can_consolidate(input, ch, from) && s.choices@
                            == consolidated(input, ch, from);
                    assert(emptied(input, ch, from));
                    assert(perturbation(input, config, self@, s.choices@));
                }
                s
            },
            None => {
                let s = perturb_with_frac(&self.best, input, config, rng, percent);
                proof {
                    assert(self@.best == ch);
                    assert(!gathers(config, self@) || may_not_empty(input, ch));
                    assert(perturbation(input, config, self@, s.choices@));
                }
                s
            },
        };
        let candidate = hill_climb(start, input, config);
        let mut walks: Vec<u64> = Vec::new();
        if !gathering {
            while walks.len() < WALKERS
                invariant
                    walks@.len() <= WALKERS,
                decreases WALKERS - walks@.len(),
            {
                let seed = any_number(rng);
                walks.push(seed);
            }
        }
        Some(Round { candidate, walks })
    }

    /// Ends a round with what became of its candidate: climbs once more and keeps
    /// the result if it is better than the best so far.
    pub fn end_round(
        &mut self,
        outcome: ScoredAssignment,
        input: &WizardInput,
        config: &WizardConfig,
    )
        requires
            input.wf(),
            old(self).wf(input, config),
            due(old(self)@),
            outcome.wf(input, config),
        ensures
            final(self).wf(input, config),
            exists|top: Seq<Option<usize>>| #[trigger]
                climbs(input, config, outcome.choices@, top) && final(self)@ == after_round(
                    input,
                    config,
                    old(self)@,
                    top,
                ),
            final(self).best.score <= old(self).best.score,
            final(self).best.score <= outcome.score,
    {
        let top = hill_climb(outcome, input, config);
        assert(climbs(input, config, outcome.choices@, top.choices@));
        if top.score < self.best.score {
            self.best = top;
            self.no_improve = 0;
        } else {
            self.no_improve = self.no_improve + 1;
        }
        self.round = self.round + 1;
    }

    /// The solution found.
    pub fn finish(&self, input: &WizardInput, config: &WizardConfig) -> (solutions: Vec<
        WizardSolution,
    >)
        requires
            input.wf(),
            self.wf(input, config),
        ensures
            solutions@.len() == 1,
            solutions@[0].describes(input, config, self.best.choices@),
            solutions@[0].score == self.best.score,
    {
        let mut solutions: Vec<WizardSolution> = Vec::new();
        solutions.push(build_solution(&self.best, input, config));
        solutions
    }
}

/// A higher tolerance never makes an assignment score higher, so a search that is
/// seeded with the solution of a lower tolerance cannot do worse.
pub proof fn law_tolerance_lowers_score(
    input: &WizardInput,
    low: &WizardConfig,
    high: &WizardConfig,
    ch: Seq<Option<usize>>,
)
    requires
        input.wf(),
        valid_choices(input, ch),
        low.strategy == high.strategy,
        low.tolerance <= high.tolerance,
    ensures
        score(input, high, ch) <= score(input, low, ch),
{
    lemma_bounds(input, ch);
}

} // verus!
