//! The wizard's configuration and input model.

use vstd::prelude::*;

verus! {

/// What the wizard minimizes.
#[derive(Debug, Clone, Copy, PartialEq, Eq, Structural)]
pub enum Strategy {
    /// Minimize the number of stores; each store weighs as much as 500 kr.
    Simplest,
    /// Minimize the total cost; each extra store weighs as much as 50 kr.
    Cheapest,
}

#[derive(Debug, Clone, Copy)]
pub struct WizardConfig {
    pub strategy: Strategy,
    /// Maximum number of wanted cards the solution is allowed to skip.
    pub tolerance: usize,
}

impl Default for WizardConfig {
    fn default() -> (config: Self)
        ensures
            config.strategy == Strategy::Cheapest,
            config.tolerance == 0,
    {
        WizardConfig { strategy: Strategy::Cheapest, tolerance: 0 }
    }
}

/// Weight of one store under `Simplest`, in oere.
pub const PRICE_WEIGHT: u64 = 50000;

/// Weight of one extra store under `Cheapest`, in oere.
pub const STORE_PENALTY: u64 = 5000;

/// No sum of prices goes beyond this.
pub const MAX_TOTAL: u64 = 0x4_0000_0000_0000;

/// No store asks more than this for shipping, with its surcharge.
pub const MAX_SHIPPING: u64 = 55000;

/// Weight of one card skipped beyond the tolerance, in oere.  Also the price of
/// ordering below a store's minimum.
pub const SKIP_PENALTY: u64 = 500000;

/// One listing of a card at a store.
pub struct CardOption {
    pub store_idx: usize,
    pub price: u32,
    pub url: String,
}

/// A wanted card with its listings, cheapest first.
pub struct WizardCard {
    pub name: String,
    pub options: Vec<CardOption>,
}

/// Everything the optimizer reads.
pub struct WizardInput {
    pub cards: Vec<WizardCard>,
    pub store_names: Vec<String>,
    pub shipping_bases: Vec<u32>,
    pub shipping_free_thresholds: Vec<u32>,
    pub min_orders: Vec<u32>,
    /// Card count above which the surcharge applies (0 = no tier).
    pub shipping_card_limits: Vec<u32>,
    pub shipping_card_surcharges: Vec<u32>,
    /// `prices[ci * stores + si]`: cheapest price of card `ci` at store `si`,
    /// `u32::MAX` where the store does not carry it.
    pub prices: Vec<u32>,
    /// Parallel to `prices`: which option of the card that price belongs to.
    pub option_indices: Vec<u32>,
    /// `store_cards[si]`: the cards with a listing at store `si`, ascending.
    pub store_cards: Vec<Vec<usize>>,
}

/// A matrix entry for store `si`: the price and index of the first listing there,
/// or `u32::MAX` where there is none with a price below that.
pub open spec fn cell_of(opts: Seq<CardOption>, si: int, price: u32, index: u32) -> bool {
    if price == u32::MAX {
        forall|oi: int|
            0 <= oi < opts.len() && (#[trigger] opts[oi]).store_idx == si ==> opts[oi].price
                == u32::MAX
    } else {
        &&& index < opts.len()
        &&& opts[index as int].store_idx == si
        &&& opts[index as int].price == price
        &&& forall|oi: int| 0 <= oi < index ==> (#[trigger] opts[oi]).store_idx != si
    }
}

impl WizardInput {
    /// Number of cards.
    pub open spec fn n_cards(&self) -> nat {
        self.cards@.len()
    }

    /// Number of stores.
    pub open spec fn stores(&self) -> nat {
        self.store_names@.len()
    }

    /// The listings of card `ci`.
    pub open spec fn options(&self, ci: int) -> Seq<CardOption> {
        self.cards@[ci].options@
    }

    /// Where the entry of card `ci` and store `si` stands in the flat matrices.
    pub open spec fn cell(&self, ci: int, si: int) -> int {
        ci * self.stores() + si
    }

    /// The cheapest option of card `ci` at store `si`, if the store carries the card.
    pub open spec fn cheapest(&self, ci: int, si: int) -> Option<usize> {
        if self.prices@[self.cell(ci, si)] == u32::MAX {
            None
        } else {
            Some(self.option_indices@[self.cell(ci, si)] as usize)
        }
    }

    /// The price that goes with `cheapest`.
    pub open spec fn cheapest_price(&self, ci: int, si: int) -> u32 {
        self.prices@[self.cell(ci, si)]
    }

    /// The matrix entry of (`ci`, `si`) is the first, and so cheapest, listing of the card there.
    pub open spec fn cell_ok(&self, ci: int, si: int) -> bool {
        cell_of(
            self.options(ci),
            si,
            self.prices@[self.cell(ci, si)],
            self.option_indices@[self.cell(ci, si)],
        )
    }

    /// The listings of card `ci` name known stores, carry a price, and are sorted by it.
    pub open spec fn card_ok(&self, ci: int) -> bool {
        let opts = self.options(ci);
        &&& opts.len() <= u32::MAX
        &&& forall|oi: int|
            0 <= oi < opts.len() ==> (#[trigger] opts[oi]).store_idx < self.stores()
                && opts[oi].price > 0
        &&& forall|a: int, b: int|
            0 <= a <= b < opts.len() ==> (#[trigger] opts[a]).price <= (#[trigger] opts[b]).price
    }

    /// `store_cards[si]` lists exactly the cards with a listing at `si`, ascending.
    pub open spec fn store_ok(&self, si: int) -> bool {
        let listed = self.store_cards@[si]@;
        &&& forall|a: int, b: int|
            0 <= a < b < listed.len() ==> (#[trigger] listed[a]) < (#[trigger] listed[b])
        &&& forall|a: int| 0 <= a < listed.len() ==> (#[trigger] listed[a]) < self.n_cards()
        &&& forall|ci: usize| #[trigger]
            listed.contains(ci) <==> ci < self.n_cards() && self.carried(ci as int, si)
    }

    /// Some listing of card `ci` is at store `si`.
    pub open spec fn carried(&self, ci: int, si: int) -> bool {
        exists|oi: int|
            0 <= oi < self.options(ci).len() && (#[trigger] self.options(ci)[oi]).store_idx == si
    }

    /// The dearest listing of each card.
    pub open spec fn top_prices(&self) -> Seq<int> {
        Seq::new(
            self.n_cards(),
            |ci: int|
                if self.options(ci).len() == 0 {
                    0
                } else {
                    self.options(ci).last().price as int
                },
        )
    }

    /// The terms of every store are known, and small enough for the score arithmetic.
    pub open spec fn terms_ok(&self) -> bool {
        &&& self.shipping_bases@.len() == self.stores()
        &&& self.shipping_free_thresholds@.len() == self.stores()
        &&& self.min_orders@.len() == self.stores()
        &&& self.shipping_card_limits@.len() == self.stores()
        &&& self.shipping_card_surcharges@.len() == self.stores()
        &&& forall|si: int|
            0 <= si < self.stores() ==> #[trigger] self.shipping_bases@[si]
                + self.shipping_card_surcharges@[si] <= MAX_SHIPPING
    }

    /// The invariant that the constructor establishes.
    pub open spec fn wf(&self) -> bool {
        &&& self.terms_ok()
        &&& self.n_cards() <= u32::MAX
        &&& self.stores() <= u32::MAX
        &&& self.prices@.len() == self.n_cards() * self.stores()
        &&& self.option_indices@.len() == self.n_cards() * self.stores()
        &&& self.store_cards@.len() == self.stores()
        &&& forall|ci: int| 0 <= ci < self.n_cards() ==> #[trigger] self.card_ok(ci)
        &&& forall|ci: int, si: int|
            0 <= ci < self.n_cards() && 0 <= si < self.stores() ==> #[trigger] self.cell_ok(ci, si)
        &&& forall|si: int| 0 <= si < self.stores() ==> #[trigger] self.store_ok(si)
        &&& crate::sums::total(self.top_prices()) <= MAX_TOTAL
    }

    /// Cells of known cards and stores lie inside the matrices.
    pub proof fn lemma_cell(&self, ci: int, si: int)
        requires
            0 <= ci < self.n_cards(),
            0 <= si < self.stores(),
        ensures
            0 <= self.cell(ci, si) < self.n_cards() * self.stores(),
            ci * self.stores() >= 0,
    {
        assert(0 <= ci * self.stores() && ci * self.stores() + si < self.n_cards() * self.stores())
            by (nonlinear_arith)
            requires
                0 <= ci < self.n_cards(),
                0 <= si < self.stores(),
        ;
    }

    pub fn card_count(&self) -> (n: usize)
        ensures
            n == self.n_cards(),
    {
        self.cards.len()
    }

    pub fn n_stores(&self) -> (n: usize)
        ensures
            n == self.stores(),
    {
        self.store_names.len()
    }

    /// The cheapest price of a card at a store; `u32::MAX` where there is none.
    pub fn cell_price(&self, ci: usize, si: usize) -> (p: u32)
        requires
            self.wf(),
            ci < self.n_cards(),
            si < self.stores(),
        ensures
            p == self.cheapest_price(ci as int, si as int),
    {
        proof {
            self.lemma_cell(ci as int, si as int);
            assert(self.prices.len() == self.prices@.len());
        }
        self.prices[ci * self.store_names.len() + si]
    }

    /// The cheapest listing of a card at a store, as (option index, price).
    pub fn cheapest_at(&self, ci: usize, si: usize) -> (best: Option<(usize, u32)>)
        requires
            self.wf(),
            ci < self.n_cards(),
            si < self.stores(),
        ensures
            match self.cheapest(ci as int, si as int) {
                None => best is None,
                Some(oi) => best == Some((oi, self.cheapest_price(ci as int, si as int))),
            },
    {
        let p = self.cell_price(ci, si);
        if p == u32::MAX {
            None
        } else {
            proof {
                self.lemma_cell(ci as int, si as int);
                assert(self.prices.len() == self.prices@.len());
            }
            Some((self.option_indices[ci * self.store_names.len() + si] as usize, p))
        }
    }

    /// Does store `si` carry card `ci`?
    pub fn has_card(&self, ci: usize, si: usize) -> (b: bool)
        requires
            self.wf(),
            ci < self.n_cards(),
            si < self.stores(),
        ensures
            b == (self.cheapest(ci as int, si as int) is Some),
    {
        self.cheapest_at(ci, si).is_some()
    }
}

} // verus!
