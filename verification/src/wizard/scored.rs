//! An assignment with its totals cached, so that the effect of moving one card
//! is known without looking at the others.

use crate::sums::{lemma_total_ones, lemma_total_take, lemma_total_zero, total};
use crate::wizard::model::{
    Strategy, WizardConfig, WizardInput, PRICE_WEIGHT, SKIP_PENALTY, STORE_PENALTY,
};
use crate::wizard::score::{
    bought_at, card_cost, compute_raw_score, fee_at, fees, is_at, lemma_bounds, lemma_member,
    lemma_move, lemma_move_stores, paid, paid_at, price_of, score, skip_flags, skipped, store_count,
    store_of, store_total, stores_used, use_at, used_flags, valid_choice, valid_choices,
};
use vstd::prelude::*;

verus! {

/// Which option was chosen for each card.
pub struct Assignment {
    pub choices: Vec<Option<usize>>,
}

/// What moving one card changes: its price and its store, before and after.
pub struct MoveInfo {
    pub old_price: u32,
    pub new_price: u32,
    pub old_si: Option<usize>,
    pub new_si: Option<usize>,
}

impl MoveInfo {
    /// These are the components of moving card `ci` from its choice in `ch` to `new`.
    pub open spec fn describes(
        &self,
        input: &WizardInput,
        ch: Seq<Option<usize>>,
        ci: int,
        new: Option<usize>,
    ) -> bool {
        &&& 0 <= ci < input.n_cards()
        &&& valid_choice(input, ci, new)
        &&& self.old_price == price_of(input, ci, ch[ci])
        &&& self.new_price == price_of(input, ci, new)
        &&& self.old_si == store_of(input, ci, ch[ci])
        &&& self.new_si == store_of(input, ci, new)
    }
}

/// The choices that `raw` means for the cards of `input`: one per card, where a
/// missing choice or one that names no listing skips the card.
pub open spec fn fitted(input: &WizardInput, raw: Seq<Option<usize>>) -> Seq<Option<usize>> {
    Seq::new(
        input.n_cards(),
        |ci: int|
            if ci < raw.len() && valid_choice(input, ci, raw[ci]) {
                raw[ci]
            } else {
                None
            },
    )
}

/// Valid choices stay as they are.
pub proof fn lemma_fitted_valid(input: &WizardInput, ch: Seq<Option<usize>>)
    requires
        valid_choices(input, ch),
    ensures
        fitted(input, ch) == ch,
{
    assert forall|ci: int| 0 <= ci < ch.len() implies fitted(input, ch)[ci] == #[trigger] ch[ci] by {
        assert(valid_choice(input, ci, ch[ci]));
    }
    assert(fitted(input, ch) =~= ch);
}

/// The score after one card is moved, less the score before.
pub open spec fn score_change(
    input: &WizardInput,
    config: &WizardConfig,
    ch: Seq<Option<usize>>,
    ci: int,
    new: Option<usize>,
) -> int {
    score(input, config, ch.update(ci, new)) - score(input, config, ch)
}

/// No score reaches this.
pub const SCORE_CAP: u64 = 0x20_0000_0000_0000;

/// Scores are not negative and stay far below the range of 64 bits.
pub proof fn lemma_score_bound(
    input: &WizardInput,
    config: &WizardConfig,
    ch: Seq<Option<usize>>,
)
    requires
        input.wf(),
        valid_choices(input, ch),
    ensures
        0 <= score(input, config, ch) < SCORE_CAP,
{
    lemma_bounds(input, ch);
    let n = input.stores();
    assert(SKIP_PENALTY * n <= SKIP_PENALTY * 0x1_0000_0000) by (nonlinear_arith)
        requires
            n <= u32::MAX,
    ;
}

/// Card `ci` is listed at its store, at its recorded position.
pub open spec fn card_listed(
    input: &WizardInput,
    ch: Seq<Option<usize>>,
    cards_at: Seq<Vec<usize>>,
    card_pos: Seq<usize>,
    ci: int,
) -> bool {
    match store_of(input, ci, ch[ci]) {
        Some(si) => {
            &&& si < cards_at.len()
            &&& card_pos[ci] < cards_at[si as int]@.len()
            &&& cards_at[si as int]@[card_pos[ci] as int] == ci
        },
        None => true,
    }
}

/// The entry at position `p` of the list of store `si` is a card that is bought
/// there and whose recorded position is `p`.
pub open spec fn entry_ok(
    input: &WizardInput,
    ch: Seq<Option<usize>>,
    cards_at: Seq<Vec<usize>>,
    card_pos: Seq<usize>,
    si: int,
    p: int,
) -> bool {
    let ci = cards_at[si]@[p];
    &&& ci < input.n_cards()
    &&& is_at(input, ci as int, ch[ci as int], si)
    &&& card_pos[ci as int] == p
}

/// Every bought card stands in the list of its store, and the lists hold nothing else.
pub open spec fn lists_match(
    input: &WizardInput,
    ch: Seq<Option<usize>>,
    cards_at: Seq<Vec<usize>>,
    card_pos: Seq<usize>,
) -> bool {
    &&& cards_at.len() == input.stores()
    &&& card_pos.len() == input.n_cards()
    &&& forall|ci: int|
        0 <= ci < input.n_cards() ==> #[trigger] card_listed(input, ch, cards_at, card_pos, ci)
    &&& forall|si: int, p: int|
        0 <= si < input.stores() && 0 <= p < cards_at[si]@.len() ==> #[trigger] entry_ok(
            input,
            ch,
            cards_at,
            card_pos,
            si,
            p,
        )
}

/// An assignment with the cards of each store, in the order in which they are
/// looked at.
pub struct Spread {
    pub choices: Seq<Option<usize>>,
    pub at: Seq<Seq<usize>>,
}

/// The list without the card; the last card takes its place.
pub open spec fn swapped_out(list: Seq<usize>, ci: int) -> Seq<usize> {
    list.update(list.index_of(ci as usize), list.last()).drop_last()
}

/// The lists once card `ci` left its old store, if any, and joined its new one, if
/// any, at the end.
pub open spec fn moved_lists(
    at: Seq<Seq<usize>>,
    ci: int,
    old_si: Option<usize>,
    new_si: Option<usize>,
) -> Seq<Seq<usize>> {
    let rest = match old_si {
        Some(si) => at.update(si as int, swapped_out(at[si as int], ci)),
        None => at,
    };
    match new_si {
        Some(si) => rest.update(si as int, rest[si as int].push(ci as usize)),
        None => rest,
    }
}

/// The assignment once card `ci` moved to `new`.
pub open spec fn relisted(
    input: &WizardInput,
    s: Spread,
    ci: int,
    new: Option<usize>,
) -> Spread {
    Spread {
        choices: s.choices.update(ci, new),
        at: moved_lists(
            s.at,
            ci,
            store_of(input, ci, s.choices[ci]),
            store_of(input, ci, new),
        ),
    }
}

/// The lists hold exactly the cards bought at each store, each once.
pub open spec fn spread_ok(input: &WizardInput, s: Spread) -> bool {
    &&& valid_choices(input, s.choices)
    &&& s.at.len() == input.stores()
    &&& forall|si: int| 0 <= si < input.stores() ==> (#[trigger] s.at[si]).no_duplicates()
    &&& forall|si: int, ci: usize|
        0 <= si < input.stores() ==> (#[trigger] s.at[si].contains(ci) <==> ci < input.n_cards()
            && is_at(input, ci as int, s.choices[ci as int], si))
}

/// The first `k` cards that are bought at store `si`, ascending.
pub open spec fn cards_below(
    input: &WizardInput,
    ch: Seq<Option<usize>>,
    si: int,
    k: int,
) -> Seq<usize>
    decreases k,
{
    if k <= 0 {
        Seq::empty()
    } else if is_at(input, k - 1, ch[k - 1], si) {
        cards_below(input, ch, si, k - 1).push((k - 1) as usize)
    } else {
        cards_below(input, ch, si, k - 1)
    }
}

/// The lists of the first `k` cards, ascending.
pub open spec fn lists_below(input: &WizardInput, ch: Seq<Option<usize>>, k: int) -> Seq<Seq<usize>> {
    Seq::new(input.stores(), |si: int| cards_below(input, ch, si, k))
}

/// An assignment as it is built: the cards of each store ascend.
pub open spec fn in_order(input: &WizardInput, ch: Seq<Option<usize>>) -> Spread {
    Spread { choices: ch, at: lists_below(input, ch, ch.len() as int) }
}

pub open spec fn lists_of(at: Seq<Vec<usize>>) -> Seq<Seq<usize>> {
    at.map_values(|list: Vec<usize>| list@)
}

/// An assignment with all derived state cached.
pub struct ScoredAssignment {
    pub choices: Vec<Option<usize>>,
    /// Card subtotal per store.
    pub store_totals: Vec<u64>,
    /// Number of cards per store.
    pub store_card_counts: Vec<usize>,
    /// Number of stores with at least one card.
    pub num_stores: usize,
    /// Number of skipped cards.
    pub num_skipped: usize,
    /// Sum of the prices of all chosen listings.
    pub card_total: u64,
    /// `cards_at[si]`: the cards bought at store `si`.
    pub cards_at: Vec<Vec<usize>>,
    /// Where each bought card stands in the list of its store.
    pub card_pos: Vec<usize>,
    pub score: u64,
}

impl ScoredAssignment {
    pub open spec fn spread(&self) -> Spread {
        Spread { choices: self.choices@, at: lists_of(self.cards_at@) }
    }

    /// The lists of cards per store and the choices say the same.
    pub open spec fn index_ok(&self, input: &WizardInput) -> bool {
        lists_match(input, self.choices@, self.cards_at@, self.card_pos@)
    }

    /// The cached totals are those of the choices.
    pub open spec fn totals_ok(&self, input: &WizardInput) -> bool {
        let ch = self.choices@;
        &&& valid_choices(input, ch)
        &&& self.store_totals@.len() == input.stores()
        &&& self.store_card_counts@.len() == input.stores()
        &&& forall|si: int|
            0 <= si < input.stores() ==> #[trigger] self.store_totals@[si] == store_total(
                input,
                ch,
                si,
            )
        &&& forall|si: int|
            0 <= si < input.stores() ==> #[trigger] self.store_card_counts@[si] == store_count(
                input,
                ch,
                si,
            )
        &&& self.num_stores == stores_used(input, ch)
        &&& self.num_skipped == skipped(ch)
        &&& self.card_total == card_cost(input, ch)
    }

    /// Everything cached follows from the choices.
    pub open spec fn wf(&self, input: &WizardInput, config: &WizardConfig) -> bool {
        &&& self.totals_ok(input)
        &&& self.index_ok(input)
        &&& self.score == score(input, config, self.choices@)
    }

    /// Every card skipped; the score is left to the caller.
    fn all_skipped(input: &WizardInput) -> (s: Self)
        requires
            input.wf(),
        ensures
            s.totals_ok(input),
            s.index_ok(input),
            s.choices@ == Seq::new(input.n_cards(), |ci: int| None::<usize>),
            lists_of(s.cards_at@) == Seq::new(input.stores(), |si: int| Seq::<usize>::empty()),
    {
        let n: usize = input.cards.len();
        let m: usize = input.store_names.len();
        let mut cards_at: Vec<Vec<usize>> = Vec::new();
        let mut si: usize = 0;
        while si < m
            invariant
                si <= m,
                cards_at@.len() == si,
                forall|k: int| 0 <= k < si ==> (#[trigger] cards_at@[k])@.len() == 0,
            decreases m - si,
        {
            cards_at.push(Vec::new());
            si += 1;
        }
        let s = ScoredAssignment {
            choices: vec![None; n],
            store_totals: vec![0; m],
            store_card_counts: vec![0; m],
            num_stores: 0,
            num_skipped: n,
            card_total: 0,
            cards_at,
            card_pos: vec![0; n],
            score: 0,
        };
        proof {
            let ch = s.choices@;
            assert forall|k: int| 0 <= k < m implies (#[trigger] s.cards_at@[k])@
                == Seq::<usize>::empty() by {
                assert(s.cards_at@[k]@ =~= Seq::<usize>::empty());
            }
            assert(lists_of(s.cards_at@) =~= Seq::new(
                input.stores(),
                |si: int| Seq::<usize>::empty(),
            ));
            assert(ch =~= Seq::new(input.n_cards(), |ci: int| None::<usize>));
            lemma_total_zero(paid(input, ch));
            assert(skip_flags(ch) =~= Seq::new(n as nat, |i: int| 1int));
            lemma_total_ones(n as nat);
            assert forall|k: int| 0 <= k < m implies store_total(input, ch, k) == 0
                && store_count(input, ch, k) == 0 by {
                lemma_total_zero(paid_at(input, ch, k));
                lemma_total_zero(bought_at(input, ch, k));
            }
            assert forall|k: int| 0 <= k < m implies #[trigger] used_flags(input, ch)[k] == 0 by {
                assert(store_count(input, ch, k) == 0);
            }
            lemma_total_zero(used_flags(input, ch));
        }
        s
    }

    /// The scored form of a raw assignment.  Choices beyond the cards are dropped;
    /// missing choices and those that name no listing become skips.
    pub fn new(raw: Assignment, input: &WizardInput, config: &WizardConfig) -> (s: Self)
        requires
            input.wf(),
        ensures
            s.wf(input, config),
            s.choices@ == fitted(input, raw.choices@),
            s.spread() == in_order(input, s.choices@),
    {
        let mut s = Self::all_skipped(input);
        let n: usize = input.cards.len();
        let mut ci: usize = 0;
        let ghost want = fitted(input, raw.choices@);
        assert(lists_of(s.cards_at@) =~= lists_below(input, want, 0));
        while ci < n
            invariant
                input.wf(),
                ci <= n,
                n == input.n_cards(),
                lists_of(s.cards_at@) == lists_below(input, want, ci as int),
                want == fitted(input, raw.choices@),
                s.totals_ok(input),
                s.index_ok(input),
                forall|k: int| 0 <= k < ci ==> #[trigger] s.choices@[k] == want[k],
                forall|k: int| ci <= k < n ==> #[trigger] s.choices@[k] is None,
            decreases n - ci,
        {
            let ghost before = lists_of(s.cards_at@);
            if ci < raw.choices.len() {
                if let Some(oi) = raw.choices[ci] {
                    if oi < input.cards[ci].options.len() {
                        let info = s.move_info(ci, None, Some(oi), input);
                        s.relocate(ci, Some(oi), &info, input);
                        assert(input.card_ok(ci as int));
                    }
                }
            }
            assert(lists_of(s.cards_at@) =~= lists_below(input, want, ci + 1));
            ci += 1;
        }
        proof {
            assert(s.choices@ =~= want);
            lemma_bounds(input, s.choices@);
            lemma_score_bound(input, config, s.choices@);
        }
        let score = s.compute_score(input, config);
        s.score = score;
        s
    }

    /// The score from the cached totals, without looking at the cards.
    fn compute_score(&self, input: &WizardInput, config: &WizardConfig) -> (result: u64)
        requires
            input.wf(),
            self.totals_ok(input),
        ensures
            result == score(input, config, self.choices@),
    {
        let ghost f = fees(input, self.choices@);
        let m: usize = input.store_names.len();
        let mut shipping: u64 = 0;
        let mut si: usize = 0;
        assert(f.take(0) =~= Seq::<int>::empty());
        while si < m
            invariant
                input.wf(),
                self.totals_ok(input),
                f == fees(input, self.choices@),
                si <= m,
                m == input.stores(),
                shipping == total(f.take(si as int)),
                shipping <= SKIP_PENALTY * si,
            decreases m - si,
        {
            proof {
                lemma_total_take(f, si as int);
                assert(self.store_totals@[si as int] == store_total(input, self.choices@, si as int));
                assert(self.store_card_counts@[si as int] == store_count(
                    input,
                    self.choices@,
                    si as int,
                ));
            }
            shipping = shipping + input.shipping_cost(
                si,
                self.store_totals[si],
                self.store_card_counts[si],
            );
            si += 1;
        }
        proof {
            assert(f.take(m as int) =~= f);
            lemma_bounds(input, self.choices@);
            lemma_score_bound(input, config, self.choices@);
        }
        compute_raw_score(
            self.card_total + shipping,
            self.num_stores,
            self.num_skipped,
            config.tolerance,
            config.strategy,
        )
    }

    /// The price and store components of moving card `ci` from `old_oi` to `new_oi`.
    pub fn move_info(
        &self,
        ci: usize,
        old_oi: Option<usize>,
        new_oi: Option<usize>,
        input: &WizardInput,
    ) -> (info: MoveInfo)
        requires
            ci < input.n_cards(),
            valid_choice(input, ci as int, old_oi),
            valid_choice(input, ci as int, new_oi),
        ensures
            info.old_price == price_of(input, ci as int, old_oi),
            info.new_price == price_of(input, ci as int, new_oi),
            info.old_si == store_of(input, ci as int, old_oi),
            info.new_si == store_of(input, ci as int, new_oi),
    {
        let card = &input.cards[ci];
        let (old_price, old_si) = match old_oi {
            Some(oi) => (card.options[oi].price, Some(card.options[oi].store_idx)),
            None => (0, None),
        };
        let (new_price, new_si) = match new_oi {
            Some(oi) => (card.options[oi].price, Some(card.options[oi].store_idx)),
            None => (0, None),
        };
        MoveInfo { old_price, new_price, old_si, new_si }
    }

    /// What the old store's shipping and use change by when card `ci` moves to `new_oi`.
    fn loss(
        &self,
        ci: usize,
        new_oi: Option<usize>,
        info: &MoveInfo,
        input: &WizardInput,
    ) -> (change: (i64, i64))
        requires
            input.wf(),
            self.totals_ok(input),
            info.describes(input, self.choices@, ci as int, new_oi),
        ensures
            info.old_si matches Some(a) ==> ({
                let nch = self.choices@.update(ci as int, new_oi);
                &&& change.0 == fee_at(input, nch, a as int) - fee_at(
                    input,
                    self.choices@,
                    a as int,
                )
                &&& change.1 == use_at(input, nch, a as int) - use_at(
                    input,
                    self.choices@,
                    a as int,
                )
            }),
            info.old_si is None ==> change == (0i64, 0i64),
            -SKIP_PENALTY <= change.0 <= SKIP_PENALTY,
            -1 <= change.1 <= 1,
    {
        let si: usize = match info.old_si {
            Some(si) => si,
            None => {
                return (0, 0);
            },
        };
        proof {
            lemma_move(input, self.choices@, ci as int, new_oi);
            lemma_member(input, self.choices@, ci as int);
            lemma_bounds(input, self.choices@.update(ci as int, new_oi));
            assert(self.store_totals@[si as int] == store_total(input, self.choices@, si as int));
            assert(self.store_card_counts@[si as int] == store_count(
                input,
                self.choices@,
                si as int,
            ));
            assert(store_total(input, self.choices@.update(ci as int, new_oi), si as int) >= 0);
            assert(store_count(input, self.choices@.update(ci as int, new_oi), si as int) >= 0);
        }
        let amount: u64 = self.store_totals[si];
        let count: usize = self.store_card_counts[si];
        let stays: bool = info.new_si == info.old_si;
        let left: u64 = if stays {
            amount - info.old_price as u64 + info.new_price as u64
        } else {
            amount - info.old_price as u64
        };
        let left_count: usize = if stays {
            count
        } else {
            count - 1
        };
        let before = input.shipping_cost(si, amount, count);
        let after = input.shipping_cost(si, left, left_count);
        let used: i64 = if left_count == 0 {
            -1
        } else {
            0
        };
        (after as i64 - before as i64, used)
    }

    /// What the new store's shipping and use change by when card `ci` moves there.
    fn gain(
        &self,
        ci: usize,
        new_oi: Option<usize>,
        info: &MoveInfo,
        input: &WizardInput,
    ) -> (change: (i64, i64))
        requires
            input.wf(),
            self.totals_ok(input),
            info.describes(input, self.choices@, ci as int, new_oi),
        ensures
            info.new_si is Some && info.new_si != info.old_si ==> ({
                let b = info.new_si->0;
                let nch = self.choices@.update(ci as int, new_oi);
                &&& change.0 == fee_at(input, nch, b as int) - fee_at(
                    input,
                    self.choices@,
                    b as int,
                )
                &&& change.1 == use_at(input, nch, b as int) - use_at(
                    input,
                    self.choices@,
                    b as int,
                )
            }),
            info.new_si is None || info.new_si == info.old_si ==> change == (0i64, 0i64),
            -SKIP_PENALTY <= change.0 <= SKIP_PENALTY,
            -1 <= change.1 <= 1,
    {
        let si: usize = match info.new_si {
            Some(si) => si,
            None => {
                return (0, 0);
            },
        };
        if info.new_si == info.old_si {
            return (0, 0);
        }
        proof {
            assert(input.card_ok(ci as int));
            lemma_move(input, self.choices@, ci as int, new_oi);
            lemma_bounds(input, self.choices@.update(ci as int, new_oi));
            assert(self.store_totals@[si as int] == store_total(input, self.choices@, si as int));
            assert(self.store_card_counts@[si as int] == store_count(
                input,
                self.choices@,
                si as int,
            ));
            assert(store_total(input, self.choices@.update(ci as int, new_oi), si as int) >= 0);
            assert(store_count(input, self.choices@.update(ci as int, new_oi), si as int) >= 0);
        }
        let amount: u64 = self.store_totals[si];
        let count: usize = self.store_card_counts[si];
        let before = input.shipping_cost(si, amount, count);
        let after = input.shipping_cost(si, amount + info.new_price as u64, count + 1);
        let used: i64 = if count == 0 {
            1
        } else {
            0
        };
        (after as i64 - before as i64, used)
    }

    /// The change of score that the move `info` of card `ci` to `new_oi` brings.
    #[verifier::spinoff_prover]
    #[verifier::rlimit(60)]
    pub fn delta_from_info(
        &self,
        ci: usize,
        new_oi: Option<usize>,
        info: &MoveInfo,
        input: &WizardInput,
        config: &WizardConfig,
    ) -> (delta: i64)
        requires
            input.wf(),
            self.wf(input, config),
            info.describes(input, self.choices@, ci as int, new_oi),
        ensures
            delta == score_change(input, config, self.choices@, ci as int, new_oi),
            -SCORE_CAP < delta < SCORE_CAP,
    {
        let ghost ch = self.choices@;
        let ghost nch = ch.update(ci as int, new_oi);
        proof {
            lemma_move(input, ch, ci as int, new_oi);
            lemma_move_stores(input, ch, ci as int, new_oi);
            lemma_bounds(input, ch);
            lemma_bounds(input, nch);
            lemma_score_bound(input, config, ch);
            lemma_score_bound(input, config, nch);
            assert(input.card_ok(ci as int));
            assert(valid_choice(input, ci as int, ch[ci as int]));
            if ch[ci as int] is Some {
                lemma_member(input, ch, ci as int);
            }
        }
        let price_delta: i64 = info.new_price as i64 - info.old_price as i64;
        let (lost_fee, lost_use) = self.loss(ci, new_oi, info, input);
        let (won_fee, won_use) = self.gain(ci, new_oi, info, input);
        let old_skip: i64 = if info.old_si.is_none() {
            1
        } else {
            0
        };
        let new_skip: i64 = if info.new_si.is_none() {
            1
        } else {
            0
        };
        let new_skipped: usize = (self.num_skipped as i64 - old_skip + new_skip) as usize;
        let store_delta: i64 = lost_use + won_use;
        let new_num_stores: usize = (self.num_stores as i64 + store_delta) as usize;
        let old_excess: i64 = excess(self.num_skipped, config.tolerance) as i64;
        let new_excess: i64 = excess(new_skipped, config.tolerance) as i64;
        let strategy_delta: i64 = match config.strategy {
            Strategy::Simplest => store_delta * PRICE_WEIGHT as i64,
            Strategy::Cheapest => (excess(new_num_stores, 1) as i64 - excess(
                self.num_stores,
                1,
            ) as i64) * STORE_PENALTY as i64,
        };
        assert(new_skipped == skipped(nch));
        assert(new_num_stores == stores_used(input, nch));
        assert(-0x1_0000_0000 <= new_excess - old_excess <= 0x1_0000_0000);
        let skip_weight: i64 = SKIP_PENALTY as i64;
        assert(skip_weight == 500000);
        let skip_delta: i64 = skip_weight * (new_excess - old_excess);
        price_delta + lost_fee + won_fee + strategy_delta + skip_delta
    }

    /// The signed change of score when card `ci` moves to `new_oi`; negative is an
    /// improvement.
    pub fn try_single_move_delta(
        &self,
        ci: usize,
        new_oi: Option<usize>,
        input: &WizardInput,
        config: &WizardConfig,
    ) -> (delta: i64)
        requires
            input.wf(),
            self.wf(input, config),
            ci < input.n_cards(),
            valid_choice(input, ci as int, new_oi),
        ensures
            delta == score_change(input, config, self.choices@, ci as int, new_oi),
            -SCORE_CAP < delta < SCORE_CAP,
    {
        assert(valid_choice(input, ci as int, self.choices@[ci as int]));
        let info = self.move_info(ci, self.choices[ci], new_oi, input);
        self.delta_from_info(ci, new_oi, &info, input, config)
    }

    /// Moves card `ci` to `new_oi` in everything but the score.
    fn relocate(&mut self, ci: usize, new_oi: Option<usize>, info: &MoveInfo, input: &WizardInput)
        requires
            input.wf(),
            old(self).totals_ok(input),
            old(self).index_ok(input),
            info.describes(input, old(self).choices@, ci as int, new_oi),
        ensures
            final(self).totals_ok(input),
            final(self).index_ok(input),
            final(self).choices@ == old(self).choices@.update(ci as int, new_oi),
            final(self).spread() == relisted(input, old(self).spread(), ci as int, new_oi),
            final(self).score == old(self).score,
    {
        let ghost ch = self.choices@;
        let ghost nch = ch.update(ci as int, new_oi);
        proof {
            lemma_move(input, ch, ci as int, new_oi);
            lemma_move_stores(input, ch, ci as int, new_oi);
            lemma_bounds(input, ch);
            lemma_bounds(input, nch);
            assert(input.card_ok(ci as int));
            assert(valid_choice(input, ci as int, ch[ci as int]));
            if ch[ci as int] is Some {
                lemma_member(input, ch, ci as int);
            }
        }
        self.relist(ci, new_oi, info, input);
        if let Some(si) = info.old_si {
            proof {
                assert(self.store_totals@[si as int] == store_total(input, ch, si as int));
                assert(self.store_card_counts@[si as int] == store_count(input, ch, si as int));
                assert(store_total(input, nch, si as int) >= 0);
                assert(store_count(input, nch, si as int) >= 0);
            }
            self.store_totals[si] = self.store_totals[si] - info.old_price as u64;
            self.store_card_counts[si] = self.store_card_counts[si] - 1;
            if self.store_card_counts[si] == 0 {
                self.num_stores = self.num_stores - 1;
            }
        }
        if let Some(si) = info.new_si {
            if self.store_card_counts[si] == 0 {
                self.num_stores = self.num_stores + 1;
            }
            self.store_totals[si] = self.store_totals[si] + info.new_price as u64;
            self.store_card_counts[si] = self.store_card_counts[si] + 1;
        }
        if info.old_si.is_some() && info.new_si.is_none() {
            self.num_skipped = self.num_skipped + 1;
        }
        if info.old_si.is_none() && info.new_si.is_some() {
            self.num_skipped = self.num_skipped - 1;
        }
        self.card_total = self.card_total - info.old_price as u64 + info.new_price as u64;
    }

    /// Moves card `ci` to `new_oi` in the choices and in the lists of cards per store.
    fn relist(&mut self, ci: usize, new_oi: Option<usize>, info: &MoveInfo, input: &WizardInput)
        requires
            input.wf(),
            valid_choices(input, old(self).choices@),
            old(self).index_ok(input),
            ci < input.n_cards(),
            valid_choice(input, ci as int, new_oi),
            info.old_si == store_of(input, ci as int, old(self).choices@[ci as int]),
            info.new_si == store_of(input, ci as int, new_oi),
        ensures
            final(self).index_ok(input),
            final(self).choices@ == old(self).choices@.update(ci as int, new_oi),
            final(self).spread() == relisted(input, old(self).spread(), ci as int, new_oi),
            final(self).store_totals@ == old(self).store_totals@,
            final(self).store_card_counts@ == old(self).store_card_counts@,
            final(self).num_stores == old(self).num_stores,
            final(self).num_skipped == old(self).num_skipped,
            final(self).card_total == old(self).card_total,
            final(self).score == old(self).score,
    {
        let ghost before = *self;
        proof {
            assert(input.card_ok(ci as int));
            assert(valid_choice(input, ci as int, before.choices@[ci as int]));
            assert(card_listed(input, before.choices@, before.cards_at@, before.card_pos@, ci as int));
        }
        if let Some(si) = info.old_si {
            let pos: usize = self.card_pos[ci];
            let ghost list = self.cards_at@[si as int]@;
            proof {
                let p = list.index_of(ci);
                assert(list[pos as int] == ci);
                assert(entry_ok(input, before.choices@, before.cards_at@, before.card_pos@, si as int, p));
            }
            let mut here = take_list(&mut self.cards_at, si);
            here.swap_remove(pos);
            if pos < here.len() {
                let swapped: usize = here[pos];
                proof {
                    assert(entry_ok(input, before.choices@, before.cards_at@, before.card_pos@, si as int, list.len() - 1));
                }
                self.card_pos[swapped] = pos;
            }
            self.cards_at[si] = here;
        }
        self.choices[ci] = new_oi;
        let ghost mid = *self;
        assert(lists_of(mid.cards_at@) =~= moved_lists(
            lists_of(before.cards_at@),
            ci as int,
            info.old_si,
            None,
        ));
        proof {
            assert forall|k: int| 0 <= k < input.n_cards() && k != ci implies
                #[trigger] card_listed(input, mid.choices@, mid.cards_at@, mid.card_pos@, k) by {
                assert(card_listed(input, before.choices@, before.cards_at@, before.card_pos@, k));
            }
            assert forall|si: int, p: int|
                0 <= si < input.stores() && 0 <= p < mid.cards_at@[si]@.len() implies
                #[trigger] mid.cards_at@[si]@[p] != ci && entry_ok(input, mid.choices@, mid.cards_at@, mid.card_pos@, si, p) by {
                assert(entry_ok(input, before.choices@, before.cards_at@, before.card_pos@, si, p));
                if info.old_si matches Some(a) && a == si {
                    assert(entry_ok(input, before.choices@, before.cards_at@, before.card_pos@, si, before.cards_at@[si]@.len() - 1));
                }
            }
        }
        if let Some(si) = info.new_si {
            self.card_pos[ci] = self.cards_at[si].len();
            let mut here = take_list(&mut self.cards_at, si);
            here.push(ci);
            self.cards_at[si] = here;
        }
        assert(lists_of(self.cards_at@) =~= moved_lists(
            lists_of(before.cards_at@),
            ci as int,
            info.old_si,
            info.new_si,
        ));
        proof {
            assert forall|k: int| 0 <= k < input.n_cards() implies
                #[trigger] card_listed(input, self.choices@, self.cards_at@, self.card_pos@, k) by {
                if k != ci {
                    assert(card_listed(input, mid.choices@, mid.cards_at@, mid.card_pos@, k));
                }
            }
            assert forall|si: int, p: int|
                0 <= si < input.stores() && 0 <= p < self.cards_at@[si]@.len() implies
                #[trigger] entry_ok(input, self.choices@, self.cards_at@, self.card_pos@, si, p) by {
                if p < mid.cards_at@[si]@.len() {
                    assert(mid.cards_at@[si]@[p] != ci && entry_ok(input, mid.choices@, mid.cards_at@, mid.card_pos@, si, p));
                }
            }
        }
    }

    /// Moves card `ci` to `new_oi` and updates everything that is cached.
    pub fn apply_single_move(
        &mut self,
        ci: usize,
        new_oi: Option<usize>,
        input: &WizardInput,
        config: &WizardConfig,
    )
        requires
            input.wf(),
            old(self).wf(input, config),
            ci < input.n_cards(),
            valid_choice(input, ci as int, new_oi),
        ensures
            final(self).wf(input, config),
            final(self).choices@ == old(self).choices@.update(ci as int, new_oi),
            final(self).spread() == relisted(input, old(self).spread(), ci as int, new_oi),
    {
        proof {
            assert(valid_choice(input, ci as int, self.choices@[ci as int]));
            lemma_move(input, self.choices@, ci as int, new_oi);
            lemma_score_bound(input, config, self.choices@);
            lemma_score_bound(input, config, self.choices@.update(ci as int, new_oi));
        }
        let info = self.move_info(ci, self.choices[ci], new_oi, input);
        let delta = self.delta_from_info(ci, new_oi, &info, input, config);
        self.relocate(ci, new_oi, &info, input);
        self.score = (self.score as i64 + delta) as u64;
    }

    /// A copy of this assignment.
    pub fn duplicate(&self) -> (copy: Self)
        ensures
            forall|input: &WizardInput, config: &WizardConfig|
                self.wf(input, config) ==> #[trigger] copy.wf(input, config),
            copy.choices@ == self.choices@,
            copy.spread() == self.spread(),
            copy.score == self.score,
    {
        let mut cards_at: Vec<Vec<usize>> = Vec::new();
        let mut si: usize = 0;
        while si < self.cards_at.len()
            invariant
                si <= self.cards_at@.len(),
                cards_at@.len() == si,
                forall|k: int| 0 <= k < si ==> (#[trigger] cards_at@[k])@ == self.cards_at@[k]@,
            decreases self.cards_at@.len() - si,
        {
            cards_at.push(self.cards_at[si].clone());
            proof {
                assert(cards_at@[si as int]@ =~= self.cards_at@[si as int]@);
            }
            si += 1;
        }
        let copy = ScoredAssignment {
            choices: self.choices.clone(),
            store_totals: self.store_totals.clone(),
            store_card_counts: self.store_card_counts.clone(),
            num_stores: self.num_stores,
            num_skipped: self.num_skipped,
            card_total: self.card_total,
            cards_at,
            card_pos: self.card_pos.clone(),
            score: self.score,
        };
        proof {
            assert(copy.choices@ =~= self.choices@);
            assert(lists_of(copy.cards_at@) =~= lists_of(self.cards_at@));
            assert(copy.store_totals@ =~= self.store_totals@);
            assert(copy.store_card_counts@ =~= self.store_card_counts@);
            assert(copy.card_pos@ =~= self.card_pos@);
            assert forall|input: &WizardInput, config: &WizardConfig|
                self.wf(input, config) implies #[trigger] copy.wf(input, config) by {
                assert forall|ci: int| 0 <= ci < input.n_cards() implies
                    #[trigger] card_listed(input, copy.choices@, copy.cards_at@, copy.card_pos@, ci) by {
                    assert(card_listed(input, self.choices@, self.cards_at@, self.card_pos@, ci));
                }
                assert forall|si: int, p: int|
                    0 <= si < input.stores() && 0 <= p < copy.cards_at@[si]@.len() implies
                    #[trigger] entry_ok(input, copy.choices@, copy.cards_at@, copy.card_pos@, si, p) by {
                    assert(entry_ok(input, self.choices@, self.cards_at@, self.card_pos@, si, p));
                }
            }
        }
        copy
    }
}

/// The lists of a well-formed assignment hold exactly the cards of each store.
pub proof fn lemma_spread_ok(s: &ScoredAssignment, input: &WizardInput, config: &WizardConfig)
    requires
        s.wf(input, config),
        input.n_cards() <= usize::MAX,
    ensures
        spread_ok(input, s.spread()),
{
    let at = s.spread().at;
    assert forall|si: int| 0 <= si < input.stores() implies (#[trigger] at[si]).no_duplicates() by {
        let list = s.cards_at@[si]@;
        assert forall|i: int, j: int| 0 <= i < list.len() && 0 <= j < list.len() && i != j implies list[i]
            != list[j] by {
            assert(entry_ok(input, s.choices@, s.cards_at@, s.card_pos@, si, i));
            assert(entry_ok(input, s.choices@, s.cards_at@, s.card_pos@, si, j));
        }
    }
    assert forall|si: int, ci: usize| 0 <= si < input.stores() implies (#[trigger] at[si].contains(ci)
        <==> ci < input.n_cards() && is_at(input, ci as int, s.choices@[ci as int], si)) by {
        let list = s.cards_at@[si]@;
        if list.contains(ci) {
            let p = choose|p: int| 0 <= p < list.len() && list[p] == ci;
            assert(entry_ok(input, s.choices@, s.cards_at@, s.card_pos@, si, p));
        }
        if ci < input.n_cards() && is_at(input, ci as int, s.choices@[ci as int], si) {
            assert(card_listed(input, s.choices@, s.cards_at@, s.card_pos@, ci as int));
            assert(list[s.card_pos@[ci as int] as int] == ci);
        }
    }
}

/// How far `n` lies above `limit`.
fn excess(n: usize, limit: usize) -> (e: usize)
    ensures
        e == if n > limit {
            n - limit
        } else {
            0
        },
{
    if n > limit {
        n - limit
    } else {
        0
    }
}

/// Takes one list out, leaving an empty one in its place.
pub(crate) fn take_list(lists: &mut Vec<Vec<usize>>, i: usize) -> (list: Vec<usize>)
    requires
        i < old(lists)@.len(),
    ensures
        list@ == old(lists)@[i as int]@,
        final(lists)@.len() == old(lists)@.len(),
        forall|k: int| 0 <= k < old(lists)@.len() && k != i ==> final(lists)@[k] == old(lists)@[k],
{
    let mut list: Vec<usize> = Vec::new();
    std::mem::swap(&mut list, &mut lists[i]);
    list
}

} // verus!
