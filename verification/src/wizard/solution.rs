//! Finished assignments in the terms of cards, stores and money.

use crate::decklist::{
    lemma_before_chain, lemma_not_before_chain, lemma_not_before_self, order_texts, text_before,
    Order,
};
use crate::sums::{
    lemma_total_add, lemma_total_bounds, lemma_total_push, lemma_total_take, lemma_total_zero,
    total,
};
use crate::text::texts;
use crate::wizard::model::{WizardConfig, WizardInput, SKIP_PENALTY};
use crate::wizard::score::{
    bought_at, card_cost, fee_at, fees, lemma_bounds, paid, paid_at, price_of, raw_score, score,
    shipping_cost_of, skip_flags, skipped, store_count, store_of, store_total, stores_used,
    used_flags, valid_choice, valid_choices,
};
use crate::wizard::scored::{fitted, lemma_fitted_valid, Assignment, ScoredAssignment};
use vstd::prelude::*;

verus! {

/// Per-card result: the card's name, and the store, price and link it is bought
/// at, or nothing if it is skipped.
pub type CardAssignment = (String, Option<(String, u32, String)>);

/// A `CardAssignment` as plain text and numbers.
pub type CardLine = (Seq<char>, Option<(Seq<char>, u32, Seq<char>)>);

pub open spec fn line_view(a: CardAssignment) -> CardLine {
    match a.1 {
        Some((store, price, url)) => (a.0@, Some((store@, price, url@))),
        None => (a.0@, None),
    }
}

pub struct WizardSolution {
    /// Per-card assignment, in card order.
    pub assignments: Vec<CardAssignment>,
    /// Raw option indices (parallel to `assignments`).  Seeds the next tolerance
    /// level.
    pub raw_choices: Vec<Option<usize>>,
    /// Stores used, in the order of their names.
    pub store_names: Vec<String>,
    /// Card subtotal per store (parallel to `store_names`).
    pub card_subtotals: Vec<u64>,
    /// Shipping per store (parallel to `store_names`).
    pub shipping_costs: Vec<u32>,
    /// Names of the skipped cards.
    pub skipped: Vec<String>,
    pub total_card_cost: u64,
    pub total_shipping: u64,
    pub num_stores: usize,
    /// The optimizer's score (lower is better).
    pub score: u64,
}

/// The stores below `k` that the assignment uses, ascending.
pub open spec fn used_below(input: &WizardInput, ch: Seq<Option<usize>>, k: int) -> Seq<int>
    decreases k,
{
    if k <= 0 {
        Seq::empty()
    } else if store_count(input, ch, k - 1) > 0 {
        used_below(input, ch, k - 1).push(k - 1)
    } else {
        used_below(input, ch, k - 1)
    }
}

/// The stores that the assignment uses, ascending.
pub open spec fn used_stores(input: &WizardInput, ch: Seq<Option<usize>>) -> Seq<int> {
    used_below(input, ch, input.stores() as int)
}

pub open spec fn name_of(input: &WizardInput, si: int) -> Seq<char> {
    input.store_names@[si]@
}

/// `s` with `si` put behind every store of its tail whose name does not come
/// after that of `si`.
pub open spec fn insert_named(input: &WizardInput, s: Seq<int>, si: int) -> Seq<int>
    decreases s.len(),
{
    if s.len() == 0 || !text_before(name_of(input, si), name_of(input, s.last())) {
        s.push(si)
    } else {
        insert_named(input, s.drop_last(), si).push(s.last())
    }
}

/// The stores in the order of their names.
pub open spec fn by_name(input: &WizardInput, s: Seq<int>) -> Seq<int>
    decreases s.len(),
{
    if s.len() == 0 {
        s
    } else {
        insert_named(input, by_name(input, s.drop_last()), s.last())
    }
}

/// No name comes after the next.
pub open spec fn names_ascend(names: Seq<Seq<char>>) -> bool {
    forall|i: int, j: int|
        0 <= i <= j < names.len() ==> !text_before(#[trigger] names[j], #[trigger] names[i])
}

/// The line of a card under a choice.
pub open spec fn card_line(input: &WizardInput, ci: int, choice: Option<usize>) -> CardLine {
    (
        input.cards@[ci].name@,
        match choice {
            Some(oi) => {
                let opt = input.options(ci)[oi as int];
                Some((name_of(input, opt.store_idx as int), opt.price, opt.url@))
            },
            None => None,
        },
    )
}

/// Names of the skipped cards among the first `k`.
pub open spec fn skipped_names(input: &WizardInput, ch: Seq<Option<usize>>, k: int) -> Seq<
    Seq<char>,
>
    decreases k,
{
    if k <= 0 {
        Seq::empty()
    } else if ch[k - 1] is None {
        skipped_names(input, ch, k - 1).push(input.cards@[k - 1].name@)
    } else {
        skipped_names(input, ch, k - 1)
    }
}

/// The lines of a list of card assignments.
pub open spec fn lines(v: Seq<CardAssignment>) -> Seq<CardLine> {
    v.map_values(|a: CardAssignment| line_view(a))
}

impl WizardSolution {
    /// This is the solution that the choices `ch` stand for.
    pub open spec fn describes(
        &self,
        input: &WizardInput,
        config: &WizardConfig,
        ch: Seq<Option<usize>>,
    ) -> bool {
        let used = by_name(input, used_stores(input, ch));
        &&& self.raw_choices@ == ch
        &&& texts(self.store_names@) == used.map_values(|si: int| name_of(input, si))
        &&& self.card_subtotals@.map_values(|v: u64| v as int) == used.map_values(
            |si: int| store_total(input, ch, si),
        )
        &&& self.shipping_costs@.map_values(|v: u32| v as int) == used.map_values(
            |si: int| fee_at(input, ch, si),
        )
        &&& texts(self.skipped@) == skipped_names(input, ch, ch.len() as int)
        &&& lines(self.assignments@) == Seq::new(
            ch.len(),
            |ci: int| card_line(input, ci, ch[ci]),
        )
        &&& self.total_card_cost == card_cost(input, ch)
        &&& self.total_shipping == total(used.map_values(|si: int| fee_at(input, ch, si)))
        &&& self.num_stores == used.len()
        &&& self.score == score(input, config, ch)
    }
}

/// Pushing a string pushes its text.
proof fn lemma_texts_push(v: Seq<String>, s: String)
    ensures
        texts(v.push(s)) == texts(v).push(s@),
{
    assert(texts(v.push(s)) =~= texts(v).push(s@));
}

proof fn lemma_lines_push(v: Seq<CardAssignment>, a: CardAssignment)
    ensures
        lines(v.push(a)) == lines(v).push(line_view(a)),
{
    assert(lines(v.push(a)) =~= lines(v).push(line_view(a)));
}

proof fn lemma_insert_named(input: &WizardInput, s: Seq<int>, si: int, f: spec_fn(int) -> int)
    ensures
        insert_named(input, s, si).len() == s.len() + 1,
        insert_named(input, s, si).to_multiset() == s.to_multiset().insert(si),
        total(insert_named(input, s, si).map_values(f)) == total(s.map_values(f)) + f(si),
    decreases s.len(),
{
    broadcast use vstd::seq_lib::group_to_multiset_ensures;

    let r = insert_named(input, s, si);
    if s.len() == 0 || !text_before(name_of(input, si), name_of(input, s.last())) {
        assert(r.map_values(f) =~= s.map_values(f).push(f(si)));
        lemma_total_push(s.map_values(f), f(si));
    } else {
        let p = s.drop_last();
        let q = insert_named(input, p, si);
        lemma_insert_named(input, p, si, f);
        assert(s =~= p.push(s.last()));
        assert(r.to_multiset() =~= s.to_multiset().insert(si));
        assert(r.map_values(f) =~= q.map_values(f).push(f(s.last())));
        assert(s.map_values(f) =~= p.map_values(f).push(f(s.last())));
        lemma_total_push(q.map_values(f), f(s.last()));
        lemma_total_push(p.map_values(f), f(s.last()));
    }
}

/// Ordering stores by name keeps them, and whatever they add up to.
pub proof fn lemma_by_name(input: &WizardInput, s: Seq<int>, f: spec_fn(int) -> int)
    ensures
        by_name(input, s).len() == s.len(),
        by_name(input, s).to_multiset() == s.to_multiset(),
        total(by_name(input, s).map_values(f)) == total(s.map_values(f)),
    decreases s.len(),
{
    broadcast use vstd::seq_lib::group_to_multiset_ensures;

    if s.len() > 0 {
        let p = s.drop_last();
        lemma_by_name(input, p, f);
        lemma_insert_named(input, by_name(input, p), s.last(), f);
        assert(s =~= p.push(s.last()));
        assert(s.map_values(f) =~= p.map_values(f).push(f(s.last())));
        lemma_total_push(p.map_values(f), f(s.last()));
    }
}

pub open spec fn names_of(input: &WizardInput, s: Seq<int>) -> Seq<Seq<char>> {
    s.map_values(|si: int| name_of(input, si))
}

proof fn lemma_insert_ascends(input: &WizardInput, s: Seq<int>, si: int)
    requires
        names_ascend(names_of(input, s)),
    ensures
        names_ascend(names_of(input, insert_named(input, s, si))),
        insert_named(input, s, si).last() == si || s.len() > 0 && insert_named(
            input,
            s,
            si,
        ).last() == s.last(),
    decreases s.len(),
{
    let r = insert_named(input, s, si);
    let names = names_of(input, r);
    let before = names_of(input, s);
    let at_end = s.len() == 0 || !text_before(name_of(input, si), name_of(input, s.last()));
    let head = if at_end {
        s
    } else {
        insert_named(input, s.drop_last(), si)
    };
    let p = s.drop_last();
    if !at_end {
        assert(names_of(input, p) =~= before.drop_last());
        assert(names_ascend(names_of(input, p)));
        lemma_insert_ascends(input, p, si);
        lemma_not_before_self(name_of(input, s.last()));
        if text_before(name_of(input, s.last()), name_of(input, si)) {
            lemma_not_before_self(name_of(input, si));
            lemma_before_chain(
                name_of(input, si),
                name_of(input, s.last()),
                name_of(input, si),
            );
        }
    }
    let front = names_of(input, head);
    assert(r =~= head.push(r.last()));
    assert(names =~= front.push(name_of(input, r.last())));
    assert forall|i: int, j: int| 0 <= i <= j < names.len() implies !text_before(
        #[trigger] names[j],
        #[trigger] names[i],
    ) by {
        if j < front.len() {
            assert(!text_before(front[j], front[i]));
        } else if i == j {
            lemma_not_before_self(names[i]);
        } else {
            let k = front.len() - 1;
            assert(!text_before(front[k], front[i]));
            assert(front[k] == name_of(input, head.last()));
            if !at_end && head.last() != si {
                assert(before[p.len() - 1] == front[k]);
                assert(before[p.len() as int] == names[j]);
                assert(!text_before(before[p.len() as int], before[p.len() - 1]));
            }
            lemma_not_before_chain(front[i], front[k], names[j]);
        }
    }
}

/// Ordered by name, no store comes after the next.
proof fn lemma_by_name_ascends(input: &WizardInput, s: Seq<int>)
    ensures
        names_ascend(names_of(input, by_name(input, s))),
    decreases s.len(),
{
    if s.len() > 0 {
        lemma_by_name_ascends(input, s.drop_last());
        lemma_insert_ascends(input, by_name(input, s.drop_last()), s.last());
    }
}

/// Store indices as integers.
pub open spec fn indices(v: Seq<usize>) -> Seq<int> {
    v.map_values(|si: usize| si as int)
}

/// Puts a store into the order of names.
fn insert_store(order: &mut Vec<usize>, si: usize, input: &WizardInput)
    requires
        si < input.stores(),
        forall|i: int| 0 <= i < old(order)@.len() ==> (#[trigger] old(order)@[i]) < input.stores(),
    ensures
        indices(final(order)@) == insert_named(input, indices(old(order)@), si as int),
        forall|i: int|
            0 <= i < final(order)@.len() ==> (#[trigger] final(order)@[i]) < input.stores(),
{
    let ghost head = indices(order@);
    let ghost given = order@;
    let mut pos: usize = order.len();
    assert(head.take(pos as int) =~= head);
    assert(insert_named(input, head, si as int) =~= insert_named(
        input,
        head.take(pos as int),
        si as int,
    ) + head.skip(pos as int));
    while pos > 0 && order_texts(
        input.store_names[si].as_str(),
        input.store_names[order[pos - 1]].as_str(),
    ) == Order::Before
        invariant
            si < input.stores(),
            given == order@,
            head == indices(given),
            forall|i: int| 0 <= i < given.len() ==> (#[trigger] given[i]) < input.stores(),
            pos <= given.len(),
            insert_named(input, head, si as int) == insert_named(
                input,
                head.take(pos as int),
                si as int,
            ) + head.skip(pos as int),
        decreases pos,
    {
        proof {
            let t = head.take(pos as int);
            assert(t.drop_last() =~= head.take(pos - 1));
            assert(t.last() == head[pos - 1]);
            assert(insert_named(input, head.take(pos - 1), si as int) + head.skip(pos - 1)
                =~= insert_named(input, t, si as int) + head.skip(pos as int));
        }
        pos -= 1;
    }
    proof {
        let t = head.take(pos as int);
        if pos > 0 {
            assert(t.last() == head[pos - 1]);
            lemma_not_before_self(name_of(input, si as int));
        }
        assert(insert_named(input, t, si as int) == t.push(si as int));
        assert(indices(given.insert(pos as int, si)) =~= t.push(si as int) + head.skip(pos as int));
    }
    order.insert(pos, si);
}

/// The stores in use, in the order of their names.
fn named_stores(scored: &ScoredAssignment, input: &WizardInput, config: &WizardConfig) -> (order:
    Vec<usize>)
    requires
        input.wf(),
        scored.wf(input, config),
    ensures
        indices(order@) == by_name(input, used_stores(input, scored.choices@)),
        forall|i: int| 0 <= i < order@.len() ==> (#[trigger] order@[i]) < input.stores(),
        order@.len() <= input.stores(),
{
    let ghost ch = scored.choices@;
    let m: usize = input.store_names.len();
    let mut order: Vec<usize> = Vec::new();
    let mut si: usize = 0;
    assert(indices(order@) =~= Seq::empty());
    while si < m
        invariant
            input.wf(),
            scored.wf(input, config),
            ch == scored.choices@,
            m == input.stores(),
            si <= m,
            order@.len() <= si,
            indices(order@) == by_name(input, used_below(input, ch, si as int)),
            forall|i: int| 0 <= i < order@.len() ==> (#[trigger] order@[i]) < input.stores(),
        decreases m - si,
    {
        assert(scored.store_card_counts@[si as int] == store_count(input, ch, si as int));
        if scored.store_card_counts[si] > 0 {
            let ghost used = used_below(input, ch, si as int);
            let ghost was = order@;
            insert_store(&mut order, si, input);
            proof {
                assert(used.push(si as int).drop_last() =~= used);
                lemma_insert_named(input, indices(was), si as int, |i: int| i);
                assert(indices(order@).len() == order@.len());
            }
        }
        si += 1;
    }
    order
}

/// The solution of a scored assignment.
pub fn build_solution(
    scored: &ScoredAssignment,
    input: &WizardInput,
    config: &WizardConfig,
) -> (solution: WizardSolution)
    requires
        input.wf(),
        scored.wf(input, config),
    ensures
        solution.describes(input, config, scored.choices@),
{
    let ghost ch = scored.choices@;
    let n: usize = input.cards.len();
    let m: usize = input.store_names.len();
    let order = named_stores(scored, input, config);
    let ghost used = indices(order@);
    let ghost name = |si: int| name_of(input, si);
    let ghost subtotal = |si: int| store_total(input, ch, si);
    let ghost fee_of = |si: int| fee_at(input, ch, si);
    let mut store_names: Vec<String> = Vec::new();
    let mut card_subtotals: Vec<u64> = Vec::new();
    let mut shipping_costs: Vec<u32> = Vec::new();
    let mut total_shipping: u64 = 0;
    let mut k: usize = 0;
    proof {
        assert(texts(store_names@) =~= used.take(0).map_values(name));
        assert(card_subtotals@.map_values(|v: u64| v as int) =~= used.take(0).map_values(subtotal));
        assert(shipping_costs@.map_values(|v: u32| v as int) =~= used.take(0).map_values(fee_of));
    }
    while k < order.len()
        invariant
            input.wf(),
            scored.wf(input, config),
            ch == scored.choices@,
            name == |si: int| name_of(input, si),
            subtotal == |si: int| store_total(input, ch, si),
            fee_of == |si: int| fee_at(input, ch, si),
            m == input.stores(),
            used == indices(order@),
            forall|i: int| 0 <= i < order@.len() ==> (#[trigger] order@[i]) < input.stores(),
            order@.len() <= m,
            k <= order@.len(),
            store_names@.len() == k,
            total_shipping <= SKIP_PENALTY * k,
            texts(store_names@) == used.take(k as int).map_values(name),
            card_subtotals@.map_values(|v: u64| v as int) == used.take(k as int).map_values(
                subtotal,
            ),
            shipping_costs@.map_values(|v: u32| v as int) == used.take(k as int).map_values(fee_of),
            total_shipping == total(used.take(k as int).map_values(fee_of)),
        decreases order@.len() - k,
    {
        let si: usize = order[k];
        let ghost done = used.take(k as int);
        proof {
            assert(scored.store_totals@[si as int] == store_total(input, ch, si as int));
            assert(scored.store_card_counts@[si as int] == store_count(input, ch, si as int));
        }
        let fee = input.shipping_cost(si, scored.store_totals[si], scored.store_card_counts[si]);
        let ghost names0 = store_names@;
        let ghost subs0 = card_subtotals@;
        let ghost costs0 = shipping_costs@;
        store_names.push(input.store_names[si].clone());
        card_subtotals.push(scored.store_totals[si]);
        shipping_costs.push(fee as u32);
        total_shipping = total_shipping + fee;
        proof {
            lemma_texts_push(names0, store_names@.last());
            let next = used.take(k + 1);
            assert(next =~= done.push(si as int));
            assert(next.map_values(name) =~= done.map_values(name).push(name(si as int)));
            assert(next.map_values(subtotal) =~= done.map_values(subtotal).push(
                subtotal(si as int),
            ));
            assert(next.map_values(fee_of) =~= done.map_values(fee_of).push(fee_of(si as int)));
            assert(card_subtotals@.map_values(|v: u64| v as int) =~= subs0.map_values(
                |v: u64| v as int,
            ).push(subtotal(si as int)));
            assert(shipping_costs@.map_values(|v: u32| v as int) =~= costs0.map_values(
                |v: u32| v as int,
            ).push(fee_of(si as int)));
            lemma_total_push(done.map_values(fee_of), fee_of(si as int));
        }
        k += 1;
    }
    assert(used.take(k as int) =~= used);

    let mut assignments: Vec<CardAssignment> = Vec::new();
    let mut skipped: Vec<String> = Vec::new();
    let mut ci: usize = 0;
    proof {
        assert(lines(assignments@) =~= Seq::new(0, |c: int| card_line(input, c, ch[c])));
        assert(texts(skipped@) =~= Seq::empty());
    }
    while ci < n
        invariant
            input.wf(),
            scored.wf(input, config),
            ch == scored.choices@,
            n == input.n_cards(),
            ci <= n,
            lines(assignments@) == Seq::new(ci as nat, |c: int| card_line(input, c, ch[c])),
            texts(skipped@) == skipped_names(input, ch, ci as int),
        decreases n - ci,
    {
        let card = &input.cards[ci];
        proof {
            assert(input.card_ok(ci as int));
            assert(valid_choice(input, ci as int, ch[ci as int]));
        }
        let bought: Option<(String, u32, String)> = match scored.choices[ci] {
            Some(oi) => {
                let opt = &card.options[oi];
                Some((input.store_names[opt.store_idx].clone(), opt.price, opt.url.clone()))
            },
            None => {
                let ghost before = skipped@;
                skipped.push(card.name.clone());
                proof {
                    lemma_texts_push(before, skipped@.last());
                }
                None
            },
        };
        let ghost before = assignments@;
        assignments.push((card.name.clone(), bought));
        proof {
            lemma_lines_push(before, assignments@.last());
            let line = card_line(input, ci as int, ch[ci as int]);
            assert(line_view(assignments@.last()) == line);
            assert(Seq::new((ci + 1) as nat, |c: int| card_line(input, c, ch[c])) =~= Seq::new(
                ci as nat,
                |c: int| card_line(input, c, ch[c]),
            ).push(line));
        }
        ci += 1;
    }
    proof {
        lemma_bounds(input, ch);
    }
    let num_stores: usize = store_names.len();
    let raw_choices = scored.choices.clone();
    assert(raw_choices@ =~= ch);
    WizardSolution {
        assignments,
        raw_choices,
        store_names,
        card_subtotals,
        shipping_costs,
        skipped,
        total_card_cost: scored.card_total,
        total_shipping,
        num_stores,
        score: scored.score,
    }
}

/// The solution that stored choices stand for.  Shows a previous run's solution.
pub fn solution_from_choices(
    choices: &Vec<Option<usize>>,
    input: &WizardInput,
    config: &WizardConfig,
) -> (solution: WizardSolution)
    requires
        input.wf(),
    ensures
        solution.describes(input, config, fitted(input, choices@)),
{
    let copy = choices.clone();
    assert(copy@ =~= choices@);
    let scored = ScoredAssignment::new(Assignment { choices: copy }, input, config);
    build_solution(&scored, input, config)
}

/// Choices taken from a solution and scored again give the same choices.
pub proof fn law_solution_round_trip(
    solution: WizardSolution,
    input: &WizardInput,
    config: &WizardConfig,
    ch: Seq<Option<usize>>,
)
    requires
        input.wf(),
        valid_choices(input, ch),
        solution.describes(input, config, ch),
    ensures
        fitted(input, solution.raw_choices@) == ch,
{
    lemma_fitted_valid(input, ch);
}

/// A store without cards has no subtotal and no shipping.
pub proof fn lemma_unused(input: &WizardInput, ch: Seq<Option<usize>>, si: int)
    requires
        input.wf(),
        valid_choices(input, ch),
        0 <= si < input.stores(),
        store_count(input, ch, si) <= 0,
    ensures
        store_count(input, ch, si) == 0,
        store_total(input, ch, si) == 0,
        fee_at(input, ch, si) == 0,
{
    let b = bought_at(input, ch, si);
    let p = paid_at(input, ch, si);
    lemma_total_bounds(b, 1);
    assert forall|ci: int| 0 <= ci < p.len() implies #[trigger] p[ci] == 0 by {
        assert(b[ci] <= total(b));
    }
    lemma_total_zero(p);
}

/// Below `k`, the stores in use make up all of the fees, subtotals and uses.
pub proof fn lemma_used_below(input: &WizardInput, ch: Seq<Option<usize>>, k: int)
    requires
        input.wf(),
        valid_choices(input, ch),
        0 <= k <= input.stores(),
    ensures
        total(used_below(input, ch, k).map_values(|si: int| fee_at(input, ch, si))) == total(
            fees(input, ch).take(k),
        ),
        total(used_below(input, ch, k).map_values(|si: int| store_total(input, ch, si))) == total(
            paid_below(input, ch, k),
        ),
        used_below(input, ch, k).len() == total(used_flags(input, ch).take(k)),
    decreases k,
{
    let fee = |si: int| fee_at(input, ch, si);
    let subtotal = |si: int| store_total(input, ch, si);
    let used = used_below(input, ch, k);
    if k == 0 {
        assert(used.map_values(fee) =~= Seq::empty());
        assert(used.map_values(subtotal) =~= Seq::empty());
        assert(fees(input, ch).take(0) =~= Seq::empty());
        assert(used_flags(input, ch).take(0) =~= Seq::empty());
        lemma_total_zero(paid_below(input, ch, 0));
    } else {
        let rest = used_below(input, ch, k - 1);
        lemma_used_below(input, ch, k - 1);
        lemma_total_take(fees(input, ch), k - 1);
        lemma_total_take(used_flags(input, ch), k - 1);
        lemma_total_add(
            paid_below(input, ch, k),
            paid_below(input, ch, k - 1),
            paid_at(input, ch, k - 1),
        );
        if store_count(input, ch, k - 1) > 0 {
            assert(used.map_values(fee) =~= rest.map_values(fee).push(fee(k - 1)));
            assert(used.map_values(subtotal) =~= rest.map_values(subtotal).push(subtotal(k - 1)));
            lemma_total_push(rest.map_values(fee), fee(k - 1));
            lemma_total_push(rest.map_values(subtotal), subtotal(k - 1));
        } else {
            lemma_unused(input, ch, k - 1);
        }
    }
}

/// What each card costs if it is bought at one of the first `k` stores.
pub open spec fn paid_below(input: &WizardInput, ch: Seq<Option<usize>>, k: int) -> Seq<int> {
    Seq::new(
        ch.len(),
        |ci: int|
            if store_of(input, ci, ch[ci]) matches Some(s) && s < k {
                price_of(input, ci, ch[ci])
            } else {
                0
            },
    )
}

proof fn lemma_skipped_below(input: &WizardInput, ch: Seq<Option<usize>>, k: int)
    requires
        0 <= k <= ch.len(),
    ensures
        skipped_names(input, ch, k).len() == total(skip_flags(ch).take(k)),
    decreases k,
{
    if k == 0 {
        assert(skip_flags(ch).take(0) =~= Seq::empty());
    } else {
        lemma_skipped_below(input, ch, k - 1);
        lemma_total_take(skip_flags(ch), k - 1);
    }
}

/// A solution adds up: its lines and its choices are parallel, one for every card;
/// its stores are in the order of their names; its subtotals and shipping costs
/// make up its totals; and its score follows from its totals and counts.
pub proof fn law_solution_adds_up(
    solution: WizardSolution,
    input: &WizardInput,
    config: &WizardConfig,
    ch: Seq<Option<usize>>,
)
    requires
        input.wf(),
        valid_choices(input, ch),
        solution.describes(input, config, ch),
    ensures
        solution.assignments@.len() == input.n_cards(),
        solution.raw_choices@.len() == solution.assignments@.len(),
        forall|i: int|
            0 <= i < solution.assignments@.len() ==> (solution.raw_choices@[i] is None
                <==> (#[trigger] solution.assignments@[i]).1 is None),
        solution.skipped@.len() == skipped(ch),
        solution.skipped@.len() <= solution.assignments@.len(),
        solution.num_stores == stores_used(input, ch),
        names_ascend(texts(solution.store_names@)),
        solution.store_names@.len() == solution.num_stores,
        solution.card_subtotals@.len() == solution.num_stores,
        solution.shipping_costs@.len() == solution.num_stores,
        total(solution.card_subtotals@.map_values(|v: u64| v as int)) == solution.total_card_cost,
        total(solution.shipping_costs@.map_values(|v: u32| v as int)) == solution.total_shipping,
        solution.total_shipping == shipping_cost_of(input, ch),
        solution.score == raw_score(
            solution.total_card_cost + solution.total_shipping,
            solution.num_stores as int,
            solution.skipped@.len() as int,
            config.tolerance as int,
            config.strategy,
        ),
{
    let m = input.stores() as int;
    let n = ch.len() as int;
    lemma_used_below(input, ch, m);
    lemma_skipped_below(input, ch, n);
    assert(fees(input, ch).take(m) =~= fees(input, ch));
    assert(used_flags(input, ch).take(m) =~= used_flags(input, ch));
    assert(skip_flags(ch).take(n) =~= skip_flags(ch));
    assert(paid_below(input, ch, m) =~= paid(input, ch)) by {
        assert forall|ci: int| 0 <= ci < ch.len() implies #[trigger] paid_below(input, ch, m)[ci]
            == paid(input, ch)[ci] by {
            assert(valid_choice(input, ci, ch[ci]));
            assert(input.card_ok(ci));
        }
    }
    let used = used_stores(input, ch);
    let order = by_name(input, used);
    lemma_by_name(input, used, |si: int| fee_at(input, ch, si));
    lemma_by_name(input, used, |si: int| store_total(input, ch, si));
    lemma_by_name_ascends(input, used);
    assert(texts(solution.store_names@) =~= names_of(input, order));
    assert(texts(solution.store_names@).len() == solution.store_names@.len());
    assert(solution.card_subtotals@.map_values(|v: u64| v as int).len()
        == solution.card_subtotals@.len());
    assert(solution.shipping_costs@.map_values(|v: u32| v as int).len()
        == solution.shipping_costs@.len());
    assert(texts(solution.skipped@).len() == solution.skipped@.len());
    lemma_total_bounds(skip_flags(ch), 1);
    let all = lines(solution.assignments@);
    assert(all.len() == solution.assignments@.len());
    assert forall|i: int| 0 <= i < solution.assignments@.len() implies (
    solution.raw_choices@[i] is None <==> (#[trigger] solution.assignments@[i]).1 is None) by {
        assert(all[i] == line_view(solution.assignments@[i]));
        assert(all[i] == card_line(input, i, ch[i]));
    }
}

} // verus!
