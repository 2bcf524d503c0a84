//! A compact pool of stores for the exhaustive search.

use crate::order::{
    by_rank, law_stable_sorted, lemma_sorted_map, sort_by_rank, stable_sorted, Ranked,
};
use crate::shipping::{blacklisted, extract_seller_name, is_blacklisted, seller_of};
use crate::text::{begins, starts_with};
use crate::wizard::exhaustive::known_stores;
use crate::wizard::model::WizardInput;
use vstd::prelude::*;

verus! {

/// With no more stores than this, all but the private sellers are candidates.
pub const SMALL_POOL: usize = 40;

/// Norwegian CardMarket sellers that join the pool.
pub const NO_SELLERS_MAX: usize = 80;

/// Cards that an international seller must carry to be useful.
pub const INT_MIN_COVERAGE: usize = 8;

/// Consecutive international sellers without use after which no more are looked at.
pub const INT_SATURATION_WINDOW: usize = 40;

/// An international price counts if it is within this percentage of the pool's best.
pub const INT_PRICE_MARGIN_PERCENT: u32 = 125;

/// Where a store belongs, by its name.
#[derive(Clone, Copy, PartialEq, Eq, Structural)]
pub enum StoreClass {
    /// A private international CardMarket seller.
    Private,
    /// A Norwegian CardMarket seller.
    Norwegian,
    /// A professional international CardMarket seller.
    Professional,
    /// Another name under CardMarket.
    OtherMarket,
    /// A store of its own.
    Storefront,
}

pub open spec fn class_of(name: Seq<char>) -> StoreClass {
    if starts_with(name, "cardmarket-int-private.com:"@) {
        StoreClass::Private
    } else if starts_with(name, "cardmarket.com:"@) {
        StoreClass::Norwegian
    } else if starts_with(name, "cardmarket-int.com:"@) {
        StoreClass::Professional
    } else if starts_with(name, "cardmarket"@) {
        StoreClass::OtherMarket
    } else {
        StoreClass::Storefront
    }
}

/// The class of a store name.
pub fn classify(name: &str) -> (class: StoreClass)
    ensures
        class == class_of(name@),
{
    if begins(name, "cardmarket-int-private.com:") {
        StoreClass::Private
    } else if begins(name, "cardmarket.com:") {
        StoreClass::Norwegian
    } else if begins(name, "cardmarket-int.com:") {
        StoreClass::Professional
    } else if begins(name, "cardmarket") {
        StoreClass::OtherMarket
    } else {
        StoreClass::Storefront
    }
}

/// The class of store `si`.
pub open spec fn store_class(input: &WizardInput, si: int) -> StoreClass {
    class_of(input.store_names@[si]@)
}

/// The stores below `k` of the given class, ascending.
pub open spec fn stores_of(input: &WizardInput, class: StoreClass, k: int) -> Seq<usize>
    decreases k,
{
    if k <= 0 {
        Seq::empty()
    } else if store_class(input, k - 1) == class {
        stores_of(input, class, k - 1).push((k - 1) as usize)
    } else {
        stores_of(input, class, k - 1)
    }
}

/// The stores below `k` that are not private sellers, ascending.
pub open spec fn public_stores(input: &WizardInput, k: int) -> Seq<usize>
    decreases k,
{
    if k <= 0 {
        Seq::empty()
    } else if store_class(input, k - 1) != StoreClass::Private {
        public_stores(input, k - 1).push((k - 1) as usize)
    } else {
        public_stores(input, k - 1)
    }
}

/// Sorting key: stores with more cards come first.
pub open spec fn by_coverage(input: &WizardInput) -> spec_fn(usize) -> int {
    |si: usize| u32::MAX - input.store_cards@[si as int]@.len()
}

/// The sellers of a class, those with the most cards first.
pub open spec fn ranked_sellers(input: &WizardInput, class: StoreClass) -> Seq<usize> {
    stable_sorted(stores_of(input, class, input.stores() as int), by_coverage(input))
}

/// The storefronts and the Norwegian sellers with the most cards.
pub open spec fn base_pool(input: &WizardInput) -> Seq<usize> {
    let no = ranked_sellers(input, StoreClass::Norwegian);
    stores_of(input, StoreClass::Storefront, input.stores() as int) + (if no.len()
        > NO_SELLERS_MAX {
        no.take(NO_SELLERS_MAX as int)
    } else {
        no
    })
}

/// The lowest price of card `ci` in the pool, `u32::MAX` where no store carries it.
pub open spec fn pool_best(input: &WizardInput, pool: Seq<usize>, ci: int) -> u32
    decreases pool.len(),
{
    if pool.len() == 0 {
        u32::MAX
    } else {
        let rest = pool_best(input, pool.drop_last(), ci);
        let here = input.cheapest_price(ci, pool.last() as int);
        if here < rest {
            here
        } else {
            rest
        }
    }
}

/// Store `si` carries card `ci` at a price that competes with the pool's best.
pub open spec fn competes(input: &WizardInput, pool: Seq<usize>, si: usize, ci: int) -> bool {
    let price = input.cheapest_price(ci, si as int);
    let best = pool_best(input, pool, ci);
    &&& price != u32::MAX
    &&& best == u32::MAX || price * 100 <= best * INT_PRICE_MARGIN_PERCENT
}

/// The seller carries enough cards, and one of them at a competing price.
pub open spec fn useful(input: &WizardInput, pool: Seq<usize>, si: usize) -> bool {
    &&& input.store_cards@[si as int]@.len() >= INT_MIN_COVERAGE
    &&& exists|ci: int| 0 <= ci < input.n_cards() && #[trigger] competes(input, pool, si, ci)
}

/// The pool and the number of sellers without use in a row, after the sellers
/// from `at` on were looked at.  The search ends when that number reaches the window.
pub open spec fn saturate(
    input: &WizardInput,
    sellers: Seq<usize>,
    at: int,
    pool: Seq<usize>,
    fails: int,
) -> Seq<usize>
    decreases sellers.len() - at,
{
    if at < 0 || at >= sellers.len() || fails >= INT_SATURATION_WINDOW {
        pool
    } else if useful(input, pool, sellers[at]) {
        saturate(input, sellers, at + 1, pool.push(sellers[at]), 0)
    } else {
        saturate(input, sellers, at + 1, pool, fails + 1)
    }
}

/// The pool after each card's cheapest store joined, for the cards below `k`.
pub open spec fn with_cheapest(input: &WizardInput, pool: Seq<usize>, k: int) -> Seq<usize>
    decreases k,
{
    if k <= 0 {
        pool
    } else {
        let rest = with_cheapest(input, pool, k - 1);
        let opts = input.options(k - 1);
        if opts.len() > 0 && !rest.contains(opts[0].store_idx) && store_class(
            input,
            opts[0].store_idx as int,
        ) != StoreClass::Private {
            rest.push(opts[0].store_idx)
        } else {
            rest
        }
    }
}

/// The store of the card's first listing, from `at` on, that is not a private seller's.
pub open spec fn first_public(input: &WizardInput, ci: int, at: int) -> Option<usize>
    decreases input.options(ci).len() - at,
{
    let opts = input.options(ci);
    if at < 0 || at >= opts.len() {
        None
    } else if store_class(input, opts[at].store_idx as int) != StoreClass::Private {
        Some(opts[at].store_idx)
    } else {
        first_public(input, ci, at + 1)
    }
}

/// Some store of the pool carries the card.
pub open spec fn covered(input: &WizardInput, pool: Seq<usize>, ci: int) -> bool {
    exists|p: int| 0 <= p < pool.len() && input.cheapest(ci, #[trigger] pool[p] as int) is Some
}

/// The pool after each card below `k` that was not covered got its cheapest
/// store that is not a private seller.
pub open spec fn with_missing(input: &WizardInput, pool: Seq<usize>, k: int) -> Seq<usize>
    decreases k,
{
    if k <= 0 {
        pool
    } else {
        let rest = with_missing(input, pool, k - 1);
        match first_public(input, k - 1, 0) {
            Some(si) if !covered(input, rest, k - 1) && !rest.contains(si) => rest.push(si),
            _ => rest,
        }
    }
}

/// The seller of store `si` is on the blacklist.
pub open spec fn barred(input: &WizardInput, si: usize) -> bool {
    blacklisted(seller_of(input.store_names@[si as int]@))
}

/// The pool without blacklisted sellers.
pub open spec fn without_barred(input: &WizardInput, pool: Seq<usize>) -> Seq<usize>
    decreases pool.len(),
{
    if pool.len() == 0 {
        pool
    } else if barred(input, pool.last()) {
        without_barred(input, pool.drop_last())
    } else {
        without_barred(input, pool.drop_last()).push(pool.last())
    }
}

/// Store `b` ships for no more than store `a`, and carries each of its cards for no more.
pub open spec fn dominates(input: &WizardInput, b: usize, a: usize) -> bool {
    &&& input.shipping_bases@[b as int] <= input.shipping_bases@[a as int]
    &&& forall|ci: int|
        0 <= ci < input.n_cards() && #[trigger] input.cheapest(ci, a as int) is Some
            ==> input.cheapest(ci, b as int) is Some && input.cheapest_price(ci, b as int)
            <= input.cheapest_price(ci, a as int)
}

/// Store `k` of the pool is dominated by another one that is not marked itself.
pub open spec fn falls(
    input: &WizardInput,
    pool: Seq<usize>,
    marks: Seq<bool>,
    k: int,
) -> bool {
    exists|j: int|
        0 <= j < pool.len() && j != k && !marks[j] && dominates(
            input,
            #[trigger] pool[j],
            pool[k],
        )
}

/// Which stores of the pool are marked as dominated after the first `k` were looked at.
pub open spec fn marked(input: &WizardInput, pool: Seq<usize>, k: int) -> Seq<bool>
    decreases k,
{
    if k <= 0 {
        Seq::new(pool.len(), |i: int| false)
    } else {
        let before = marked(input, pool, k - 1);
        before.update(k - 1, falls(input, pool, before, k - 1))
    }
}

/// The entries of the pool, up to `k`, that are not marked.
pub open spec fn unmarked(pool: Seq<usize>, marks: Seq<bool>, k: int) -> Seq<usize>
    decreases k,
{
    if k <= 0 {
        Seq::empty()
    } else if marks[k - 1] {
        unmarked(pool, marks, k - 1)
    } else {
        unmarked(pool, marks, k - 1).push(pool[k - 1])
    }
}

/// The pool without dominated stores.
pub open spec fn undominated(input: &WizardInput, pool: Seq<usize>) -> Seq<usize> {
    unmarked(pool, marked(input, pool, pool.len() as int), pool.len() as int)
}

/// The pool before sellers are struck off.
pub open spec fn wide_pool(input: &WizardInput) -> Seq<usize> {
    let pool = saturate(
        input,
        ranked_sellers(input, StoreClass::Professional),
        0,
        base_pool(input),
        0,
    );
    let n = input.n_cards() as int;
    with_missing(input, with_cheapest(input, pool, n), n)
}

/// The candidate stores of the exhaustive search.
pub open spec fn candidate_stores(input: &WizardInput) -> Seq<usize> {
    if input.stores() <= SMALL_POOL {
        public_stores(input, input.stores() as int)
    } else {
        let pool = without_barred(input, wide_pool(input));
        if input.n_cards() <= 1 {
            pool
        } else {
            undominated(input, pool)
        }
    }
}

/// A seller with the number of its cards.
pub struct Seller {
    pub si: usize,
    /// Lower for sellers with more cards.
    pub rank: u64,
}

impl Ranked for Seller {
    open spec fn rank(&self) -> int {
        self.rank as int
    }

    fn get_rank(&self) -> (r: u64) {
        self.rank
    }
}

proof fn lemma_stores_of(input: &WizardInput, class: StoreClass, k: int)
    requires
        input.wf(),
        k <= input.stores(),
    ensures
        forall|p: int|
            0 <= p < stores_of(input, class, k).len() ==> (#[trigger] stores_of(input, class, k)[p])
                < k && store_class(input, stores_of(input, class, k)[p] as int) == class,
    decreases k,
{
    if k > 0 {
        lemma_stores_of(input, class, k - 1);
    }
}

/// The stores of a class.
fn find_class(
    input: &WizardInput,
    classes: &Vec<StoreClass>,
    class: StoreClass,
) -> (found: Vec<usize>)
    requires
        input.wf(),
        classes@.len() == input.stores(),
        forall|si: int|
            0 <= si < classes@.len() ==> #[trigger] classes@[si] == store_class(input, si),
    ensures
        found@ == stores_of(input, class, input.stores() as int),
{
    let mut found: Vec<usize> = Vec::new();
    let mut si: usize = 0;
    while si < classes.len()
        invariant
            input.wf(),
            classes@.len() == input.stores(),
            forall|k: int|
                0 <= k < classes@.len() ==> #[trigger] classes@[k] == store_class(input, k),
            si <= classes@.len(),
            found@ == stores_of(input, class, si as int),
        decreases classes@.len() - si,
    {
        assert(classes@[si as int] == store_class(input, si as int));
        if classes[si] == class {
            found.push(si);
        }
        si += 1;
    }
    found
}

/// The sellers of a class, those with the most cards first.
fn rank_sellers(
    input: &WizardInput,
    classes: &Vec<StoreClass>,
    class: StoreClass,
) -> (ranked: Vec<usize>)
    requires
        input.wf(),
        classes@.len() == input.stores(),
        forall|si: int|
            0 <= si < classes@.len() ==> #[trigger] classes@[si] == store_class(input, si),
    ensures
        ranked@ == ranked_sellers(input, class),
        known_stores(input, ranked@),
{
    let found = find_class(input, classes, class);
    let mut sellers: Vec<Seller> = Vec::new();
    let mut i: usize = 0;
    proof {
        lemma_stores_of(input, class, input.stores() as int);
    }
    while i < found.len()
        invariant
            input.wf(),
            i <= found@.len(),
            forall|p: int| 0 <= p < found@.len() ==> (#[trigger] found@[p]) < input.stores(),
            sellers@.len() == i,
            forall|p: int|
                0 <= p < i ==> (#[trigger] sellers@[p]).si == found@[p] && sellers@[p].rank
                    == by_coverage(input)(found@[p]),
        decreases found@.len() - i,
    {
        let si: usize = found[i];
        proof {
            assert(found@[i as int] < input.stores());
            lemma_listed_len(input, si as int);
        }
        let coverage: usize = input.store_cards[si].len();
        let rank: u64 = u32::MAX as u64 - coverage as u64;
        sellers.push(Seller { si, rank });
        i += 1;
    }
    let ghost given = sellers@;
    let sorted = sort_by_rank(sellers);
    let mut ranked: Vec<usize> = Vec::new();
    let mut k: usize = 0;
    let ghost f = |s: Seller| s.si;
    assert(sorted@.take(0).map_values(f) =~= Seq::empty());
    while k < sorted.len()
        invariant
            f == (|s: Seller| s.si),
            k <= sorted@.len(),
            ranked@ == sorted@.take(k as int).map_values(f),
        decreases sorted@.len() - k,
    {
        proof {
            assert(sorted@.take(k + 1).map_values(f) =~= sorted@.take(k as int).map_values(f).push(
                sorted@[k as int].si,
            ));
        }
        ranked.push(sorted[k].si);
        k += 1;
    }
    proof {
        assert(sorted@.take(k as int) =~= sorted@);
        assert(given.map_values(f) =~= found@);
        assert forall|p: int| 0 <= p < given.len() implies by_coverage(input)(f(
            #[trigger] given[p],
        )) == by_rank::<Seller>()(given[p]) by {
            assert(given[p].si == found@[p]);
        }
        lemma_sorted_map(given, by_rank::<Seller>(), f, by_coverage(input));
        lemma_ranked_known(input, class);
    }
    ranked
}

/// A store lists no more cards than there are.
proof fn lemma_listed_len(input: &WizardInput, si: int)
    requires
        input.wf(),
        0 <= si < input.stores(),
    ensures
        input.store_cards@[si]@.len() <= input.n_cards(),
{
    assert(input.store_ok(si));
    let listed = input.store_cards@[si]@;
    lemma_ascending_len(listed, input.n_cards() as int);
}

proof fn lemma_ascending_len(s: Seq<usize>, n: int)
    requires
        n >= 0,
        forall|a: int, b: int| 0 <= a < b < s.len() ==> (#[trigger] s[a]) < (#[trigger] s[b]),
        forall|a: int| 0 <= a < s.len() ==> (#[trigger] s[a]) < n,
    ensures
        s.len() <= n,
    decreases s.len(),
{
    if s.len() > 0 {
        let p = s.drop_last();
        let m = s.last() as int;
        assert forall|a: int| 0 <= a < p.len() implies (#[trigger] p[a]) < m by {
            assert(s[a] < s[s.len() - 1]);
        }
        assert(s[s.len() - 1] < n);
        lemma_ascending_len(p, m);
    }
}

proof fn lemma_ranked_known(input: &WizardInput, class: StoreClass)
    requires
        input.wf(),
    ensures
        known_stores(input, ranked_sellers(input, class)),
        forall|p: int|
            0 <= p < ranked_sellers(input, class).len() ==> store_class(
                input,
                #[trigger] ranked_sellers(input, class)[p] as int,
            ) == class,
{
    let all = stores_of(input, class, input.stores() as int);
    let r = ranked_sellers(input, class);
    lemma_stores_of(input, class, input.stores() as int);
    law_stable_sorted(all, by_coverage(input));
    assert forall|p: int| 0 <= p < r.len() implies (#[trigger] r[p]) < input.stores()
        && store_class(input, r[p] as int) == class by {
        assert(r.contains(r[p]));
        assert(all.contains(r[p]));
        let q = choose|q: int| 0 <= q < all.len() && all[q] == r[p];
        assert(all[q] < input.stores());
    }
}

/// The lowest price of each card in the pool.
fn find_pool_best(input: &WizardInput, pool: &Vec<usize>) -> (best: Vec<u32>)
    requires
        input.wf(),
        known_stores(input, pool@),
    ensures
        best@.len() == input.n_cards(),
        forall|ci: int|
            0 <= ci < best@.len() ==> #[trigger] best@[ci] == pool_best(input, pool@, ci),
{
    let n: usize = input.cards.len();
    let mut best: Vec<u32> = Vec::new();
    let mut ci: usize = 0;
    while ci < n
        invariant
            input.wf(),
            known_stores(input, pool@),
            n == input.n_cards(),
            ci <= n,
            best@.len() == ci,
            forall|k: int| 0 <= k < ci ==> #[trigger] best@[k] == pool_best(input, pool@, k),
        decreases n - ci,
    {
        let mut low: u32 = u32::MAX;
        let mut p: usize = 0;
        assert(pool@.take(0) =~= Seq::empty());
        while p < pool.len()
            invariant
                input.wf(),
                known_stores(input, pool@),
                ci < input.n_cards(),
                p <= pool@.len(),
                low == pool_best(input, pool@.take(p as int), ci as int),
            decreases pool@.len() - p,
        {
            proof {
                let t = pool@.take(p + 1);
                assert(t.drop_last() =~= pool@.take(p as int));
                assert(t.last() == pool@[p as int]);
                assert(pool@[p as int] < input.stores());
            }
            let price = input.cell_price(ci, pool[p]);
            if price < low {
                low = price;
            }
            p += 1;
        }
        assert(pool@.take(p as int) =~= pool@);
        best.push(low);
        ci += 1;
    }
    best
}

/// Is the seller useful next to the pool?
fn is_useful(input: &WizardInput, pool: &Vec<usize>, best: &Vec<u32>, si: usize) -> (b: bool)
    requires
        input.wf(),
        si < input.stores(),
        best@.len() == input.n_cards(),
        forall|ci: int|
            0 <= ci < best@.len() ==> #[trigger] best@[ci] == pool_best(input, pool@, ci),
    ensures
        b == useful(input, pool@, si),
{
    if input.store_cards[si].len() < INT_MIN_COVERAGE {
        return false;
    }
    let n: usize = input.cards.len();
    let mut ci: usize = 0;
    while ci < n
        invariant
            input.wf(),
            si < input.stores(),
            input.store_cards@[si as int]@.len() >= INT_MIN_COVERAGE,
            n == input.n_cards(),
            ci <= n,
            best@.len() == input.n_cards(),
            forall|k: int|
                0 <= k < best@.len() ==> #[trigger] best@[k] == pool_best(input, pool@, k),
            forall|k: int| 0 <= k < ci ==> !#[trigger] competes(input, pool@, si, k),
        decreases n - ci,
    {
        let price = input.cell_price(ci, si);
        assert(best@[ci as int] == pool_best(input, pool@, ci as int));
        if price != u32::MAX && (best[ci] == u32::MAX || price as u64 * 100 <= best[ci] as u64
            * 125) {
            assert(competes(input, pool@, si, ci as int));
            return true;
        }
        ci += 1;
    }
    false
}

/// The pool with the useful professional sellers.
fn add_professionals(input: &WizardInput, sellers: &Vec<usize>, pool: Vec<usize>) -> (wider: Vec<
    usize,
>)
    requires
        input.wf(),
        known_stores(input, pool@),
        known_stores(input, sellers@),
    ensures
        wider@ == saturate(input, sellers@, 0, pool@, 0),
        known_stores(input, wider@),
{
    let ghost want = saturate(input, sellers@, 0, pool@, 0);
    let mut pool = pool;
    let mut best = find_pool_best(input, &pool);
    let mut fails: usize = 0;
    let mut at: usize = 0;
    while at < sellers.len() && fails < INT_SATURATION_WINDOW
        invariant
            input.wf(),
            known_stores(input, pool@),
            known_stores(input, sellers@),
            at <= sellers@.len(),
            fails <= INT_SATURATION_WINDOW,
            best@.len() == input.n_cards(),
            forall|ci: int|
                0 <= ci < best@.len() ==> #[trigger] best@[ci] == pool_best(input, pool@, ci),
            want == saturate(input, sellers@, at as int, pool@, fails as int),
        decreases sellers@.len() - at,
    {
        let si: usize = sellers[at];
        assert(sellers@[at as int] < input.stores());
        if is_useful(input, &pool, &best, si) {
            let ghost p0 = pool@;
            let ghost b0 = best@;
            pool.push(si);
            let mut ci: usize = 0;
            proof {
                assert(p0.push(si).drop_last() =~= p0);
            }
            while ci < best.len()
                invariant
                    input.wf(),
                    si < input.stores(),
                    pool@ == p0.push(si),
                    pool@.drop_last() == p0,
                    best@.len() == input.n_cards(),
                    b0.len() == best@.len(),
                    forall|k: int|
                        0 <= k < b0.len() ==> #[trigger] b0[k] == pool_best(input, p0, k),
                    ci <= best@.len(),
                    forall|k: int|
                        0 <= k < ci ==> #[trigger] best@[k] == pool_best(input, pool@, k),
                    forall|k: int| ci <= k < best@.len() ==> #[trigger] best@[k] == b0[k],
                decreases best@.len() - ci,
            {
                assert(b0[ci as int] == pool_best(input, p0, ci as int));
                let price = input.cell_price(ci, si);
                if price < best[ci] {
                    best[ci] = price;
                }
                ci += 1;
            }
            fails = 0;
        } else {
            fails += 1;
        }
        at += 1;
    }
    pool
}

fn list_has(list: &Vec<usize>, x: usize) -> (b: bool)
    ensures
        b == list@.contains(x),
{
    let mut i: usize = 0;
    while i < list.len()
        invariant
            i <= list@.len(),
            forall|k: int| 0 <= k < i ==> list@[k] != x,
        decreases list@.len() - i,
    {
        if list[i] == x {
            return true;
        }
        i += 1;
    }
    false
}

/// The pool with each card's cheapest store.
fn add_cheapest(input: &WizardInput, classes: &Vec<StoreClass>, pool: Vec<usize>) -> (wider: Vec<
    usize,
>)
    requires
        input.wf(),
        known_stores(input, pool@),
        classes@.len() == input.stores(),
        forall|si: int|
            0 <= si < classes@.len() ==> #[trigger] classes@[si] == store_class(input, si),
    ensures
        wider@ == with_cheapest(input, pool@, input.n_cards() as int),
        known_stores(input, wider@),
{
    let ghost given = pool@;
    let n: usize = input.cards.len();
    let mut pool = pool;
    let mut ci: usize = 0;
    while ci < n
        invariant
            input.wf(),
            known_stores(input, pool@),
            classes@.len() == input.stores(),
            forall|si: int|
                0 <= si < classes@.len() ==> #[trigger] classes@[si] == store_class(input, si),
            n == input.n_cards(),
            ci <= n,
            pool@ == with_cheapest(input, given, ci as int),
        decreases n - ci,
    {
        let opts = &input.cards[ci].options;
        assert(input.card_ok(ci as int));
        if opts.len() > 0 {
            let si: usize = opts[0].store_idx;
            assert(input.options(ci as int)[0].store_idx == si);
            assert(classes@[si as int] == store_class(input, si as int));
            if !list_has(&pool, si) && classes[si] != StoreClass::Private {
                pool.push(si);
            }
        }
        ci += 1;
    }
    pool
}

/// Does some store of the pool carry the card?
fn is_covered(input: &WizardInput, pool: &Vec<usize>, ci: usize) -> (b: bool)
    requires
        input.wf(),
        known_stores(input, pool@),
        ci < input.n_cards(),
    ensures
        b == covered(input, pool@, ci as int),
{
    let mut p: usize = 0;
    while p < pool.len()
        invariant
            input.wf(),
            known_stores(input, pool@),
            ci < input.n_cards(),
            p <= pool@.len(),
            forall|q: int|
                0 <= q < p ==> input.cheapest(ci as int, #[trigger] pool@[q] as int) is None,
        decreases pool@.len() - p,
    {
        assert(pool@[p as int] < input.stores());
        if input.has_card(ci, pool[p]) {
            return true;
        }
        p += 1;
    }
    false
}

/// The store of the card's first listing that is not a private seller's.
fn find_public(input: &WizardInput, classes: &Vec<StoreClass>, ci: usize) -> (si: Option<usize>)
    requires
        input.wf(),
        ci < input.n_cards(),
        classes@.len() == input.stores(),
        forall|si: int|
            0 <= si < classes@.len() ==> #[trigger] classes@[si] == store_class(input, si),
    ensures
        si == first_public(input, ci as int, 0),
        si matches Some(s) ==> s < input.stores(),
{
    let opts = &input.cards[ci].options;
    let mut at: usize = 0;
    while at < opts.len()
        invariant
            input.wf(),
            ci < input.n_cards(),
            classes@.len() == input.stores(),
            forall|si: int|
                0 <= si < classes@.len() ==> #[trigger] classes@[si] == store_class(input, si),
            opts@ == input.options(ci as int),
            at <= opts@.len(),
            first_public(input, ci as int, 0) == first_public(input, ci as int, at as int),
        decreases opts@.len() - at,
    {
        assert(input.card_ok(ci as int));
        let si: usize = opts[at].store_idx;
        assert(input.options(ci as int)[at as int].store_idx == si);
        assert(classes@[si as int] == store_class(input, si as int));
        if classes[si] != StoreClass::Private {
            return Some(si);
        }
        at += 1;
    }
    None
}

/// The pool with a store for each card that was not covered.
fn add_missing(input: &WizardInput, classes: &Vec<StoreClass>, pool: Vec<usize>) -> (wider: Vec<
    usize,
>)
    requires
        input.wf(),
        known_stores(input, pool@),
        classes@.len() == input.stores(),
        forall|si: int|
            0 <= si < classes@.len() ==> #[trigger] classes@[si] == store_class(input, si),
    ensures
        wider@ == with_missing(input, pool@, input.n_cards() as int),
        known_stores(input, wider@),
{
    let ghost given = pool@;
    let n: usize = input.cards.len();
    let mut pool = pool;
    let mut ci: usize = 0;
    while ci < n
        invariant
            input.wf(),
            known_stores(input, pool@),
            classes@.len() == input.stores(),
            forall|si: int|
                0 <= si < classes@.len() ==> #[trigger] classes@[si] == store_class(input, si),
            n == input.n_cards(),
            ci <= n,
            pool@ == with_missing(input, given, ci as int),
        decreases n - ci,
    {
        let known: bool = is_covered(input, &pool, ci);
        if let Some(si) = find_public(input, classes, ci) {
            if !known && !list_has(&pool, si) {
                pool.push(si);
            }
        }
        ci += 1;
    }
    pool
}

/// The pool without blacklisted sellers.
fn drop_barred(input: &WizardInput, pool: &Vec<usize>) -> (kept: Vec<usize>)
    requires
        input.wf(),
        known_stores(input, pool@),
    ensures
        kept@ == without_barred(input, pool@),
        known_stores(input, kept@),
{
    let mut kept: Vec<usize> = Vec::new();
    let mut p: usize = 0;
    assert(pool@.take(0) =~= Seq::empty());
    while p < pool.len()
        invariant
            input.wf(),
            known_stores(input, pool@),
            known_stores(input, kept@),
            p <= pool@.len(),
            kept@ == without_barred(input, pool@.take(p as int)),
        decreases pool@.len() - p,
    {
        proof {
            let t = pool@.take(p + 1);
            assert(t.drop_last() =~= pool@.take(p as int));
            assert(t.last() == pool@[p as int]);
            assert(pool@[p as int] < input.stores());
        }
        let si: usize = pool[p];
        if !is_blacklisted(&extract_seller_name(&input.store_names[si])) {
            kept.push(si);
        }
        p += 1;
    }
    assert(pool@.take(p as int) =~= pool@);
    kept
}

/// Does store `b` dominate store `a`?
fn is_dominating(input: &WizardInput, b: usize, a: usize) -> (yes: bool)
    requires
        input.wf(),
        a < input.stores(),
        b < input.stores(),
    ensures
        yes == dominates(input, b, a),
{
    if input.shipping_bases[b] > input.shipping_bases[a] {
        return false;
    }
    let n: usize = input.cards.len();
    let mut ci: usize = 0;
    while ci < n
        invariant
            input.wf(),
            a < input.stores(),
            b < input.stores(),
            n == input.n_cards(),
            input.shipping_bases@[b as int] <= input.shipping_bases@[a as int],
            ci <= n,
            forall|k: int|
                0 <= k < ci && #[trigger] input.cheapest(k, a as int) is Some ==> input.cheapest(
                    k,
                    b as int,
                ) is Some && input.cheapest_price(k, b as int) <= input.cheapest_price(
                    k,
                    a as int,
                ),
        decreases n - ci,
    {
        let pa = input.cell_price(ci, a);
        let pb = input.cell_price(ci, b);
        if pa != u32::MAX && (pb == u32::MAX || pb > pa) {
            assert(input.cheapest(ci as int, a as int) is Some);
            return false;
        }
        ci += 1;
    }
    true
}

/// The pool without dominated stores.
fn drop_dominated(input: &WizardInput, pool: &Vec<usize>) -> (kept: Vec<usize>)
    requires
        input.wf(),
        known_stores(input, pool@),
    ensures
        kept@ == undominated(input, pool@),
        known_stores(input, kept@),
{
    let n: usize = pool.len();
    let mut marks: Vec<bool> = vec![false; n];
    let mut k: usize = 0;
    assert(marks@ =~= marked(input, pool@, 0));
    while k < n
        invariant
            input.wf(),
            known_stores(input, pool@),
            n == pool@.len(),
            k <= n,
            marks@.len() == n,
            marks@ == marked(input, pool@, k as int),
        decreases n - k,
    {
        let mut hit: bool = false;
        let mut j: usize = 0;
        while j < n && !hit
            invariant
                input.wf(),
                known_stores(input, pool@),
                n == pool@.len(),
                k < n,
                j <= n,
                marks@.len() == n,
                hit ==> falls(input, pool@, marks@, k as int),
                !hit ==> forall|q: int|
                    0 <= q < j && q != k && !marks@[q] ==> !dominates(
                        input,
                        #[trigger] pool@[q],
                        pool@[k as int],
                    ),
            decreases n - j,
        {
            assert(pool@[j as int] < input.stores());
            assert(pool@[k as int] < input.stores());
            if j != k && !marks[j] && is_dominating(input, pool[j], pool[k]) {
                hit = true;
            }
            j += 1;
        }
        assert(hit == falls(input, pool@, marks@, k as int));
        marks[k] = hit;
        k += 1;
    }
    let mut kept: Vec<usize> = Vec::new();
    let mut p: usize = 0;
    while p < n
        invariant
            known_stores(input, pool@),
            known_stores(input, kept@),
            n == pool@.len(),
            marks@.len() == n,
            p <= n,
            kept@ == unmarked(pool@, marks@, p as int),
        decreases n - p,
    {
        assert(pool@[p as int] < input.stores());
        if !marks[p] {
            kept.push(pool[p]);
        }
        p += 1;
    }
    kept
}

/// The stores that could plausibly appear in an optimal solution.
pub fn select_candidate_stores(input: &WizardInput) -> (candidates: Vec<usize>)
    requires
        input.wf(),
    ensures
        candidates@ == candidate_stores(input),
        known_stores(input, candidates@),
{
    let n: usize = input.store_names.len();
    let mut classes: Vec<StoreClass> = Vec::new();
    let mut si: usize = 0;
    while si < n
        invariant
            n == input.stores(),
            si <= n,
            classes@.len() == si,
            forall|k: int| 0 <= k < si ==> #[trigger] classes@[k] == store_class(input, k),
        decreases n - si,
    {
        classes.push(classify(&input.store_names[si]));
        si += 1;
    }
    if n <= SMALL_POOL {
        let mut all: Vec<usize> = Vec::new();
        let mut k: usize = 0;
        while k < n
            invariant
                n == input.stores(),
                classes@.len() == n,
                forall|k: int| 0 <= k < n ==> #[trigger] classes@[k] == store_class(input, k),
                k <= n,
                all@ == public_stores(input, k as int),
                known_stores(input, all@),
            decreases n - k,
        {
            assert(classes@[k as int] == store_class(input, k as int));
            if classes[k] != StoreClass::Private {
                all.push(k);
            }
            k += 1;
        }
        return all;
    }
    let mut pool = find_class(input, &classes, StoreClass::Storefront);
    let mut no_sellers = rank_sellers(input, &classes, StoreClass::Norwegian);
    proof {
        lemma_stores_of(input, StoreClass::Storefront, input.stores() as int);
    }
    let ghost p0 = pool@;
    let ghost s0 = no_sellers@;
    if no_sellers.len() > NO_SELLERS_MAX {
        no_sellers.truncate(NO_SELLERS_MAX);
    }
    let ghost s1 = no_sellers@;
    pool.append(&mut no_sellers);
    proof {
        assert(pool@ =~= base_pool(input));
        assert forall|p: int| 0 <= p < pool@.len() implies (#[trigger] pool@[p]) < input.stores() by {
            if p < p0.len() {
                assert(p0[p] < input.stores());
            } else {
                assert(s0[p - p0.len()] < input.stores());
            }
        }
    }
    let professionals = rank_sellers(input, &classes, StoreClass::Professional);
    let pool = add_professionals(input, &professionals, pool);
    let pool = add_cheapest(input, &classes, pool);
    let pool = add_missing(input, &classes, pool);
    let pool = drop_barred(input, &pool);
    if input.card_count() <= 1 {
        return pool;
    }
    drop_dominated(input, &pool)
}

/// No store of the pool is a private seller.
pub open spec fn all_public(input: &WizardInput, pool: Seq<usize>) -> bool {
    forall|p: int|
        0 <= p < pool.len() ==> store_class(input, #[trigger] pool[p] as int)
            != StoreClass::Private
}

proof fn lemma_base_public(input: &WizardInput)
    requires
        input.wf(),
    ensures
        all_public(input, base_pool(input)),
{
    let pool = base_pool(input);
    let front = stores_of(input, StoreClass::Storefront, input.stores() as int);
    let no = ranked_sellers(input, StoreClass::Norwegian);
    lemma_stores_of(input, StoreClass::Storefront, input.stores() as int);
    lemma_ranked_known(input, StoreClass::Norwegian);
    assert forall|p: int| 0 <= p < pool.len() implies store_class(input, #[trigger] pool[p] as int)
        != StoreClass::Private by {
        if p < front.len() {
            assert(pool[p] == front[p]);
        } else {
            assert(pool[p] == no[p - front.len()]);
        }
    }
}

proof fn lemma_saturate_public(
    input: &WizardInput,
    sellers: Seq<usize>,
    at: int,
    pool: Seq<usize>,
    fails: int,
)
    requires
        all_public(input, pool),
        all_public(input, sellers),
    ensures
        all_public(input, saturate(input, sellers, at, pool, fails)),
    decreases sellers.len() - at,
{
    if !(at < 0 || at >= sellers.len() || fails >= INT_SATURATION_WINDOW) {
        if useful(input, pool, sellers[at]) {
            lemma_saturate_public(input, sellers, at + 1, pool.push(sellers[at]), 0);
        } else {
            lemma_saturate_public(input, sellers, at + 1, pool, fails + 1);
        }
    }
}

proof fn lemma_cheapest_public(input: &WizardInput, pool: Seq<usize>, k: int)
    requires
        all_public(input, pool),
    ensures
        all_public(input, with_cheapest(input, pool, k)),
    decreases k,
{
    if k > 0 {
        lemma_cheapest_public(input, pool, k - 1);
    }
}

proof fn lemma_first_public(input: &WizardInput, ci: int, at: int)
    ensures
        first_public(input, ci, at) matches Some(si) ==> store_class(input, si as int)
            != StoreClass::Private,
    decreases input.options(ci).len() - at,
{
    if 0 <= at < input.options(ci).len() {
        lemma_first_public(input, ci, at + 1);
    }
}

proof fn lemma_missing_public(input: &WizardInput, pool: Seq<usize>, k: int)
    requires
        all_public(input, pool),
    ensures
        all_public(input, with_missing(input, pool, k)),
    decreases k,
{
    if k > 0 {
        lemma_missing_public(input, pool, k - 1);
        lemma_first_public(input, k - 1, 0);
    }
}

proof fn lemma_unbarred(input: &WizardInput, pool: Seq<usize>)
    requires
        all_public(input, pool),
    ensures
        all_public(input, without_barred(input, pool)),
        forall|p: int|
            0 <= p < without_barred(input, pool).len() ==> !barred(
                input,
                #[trigger] without_barred(input, pool)[p],
            ),
        (forall|p: int| 0 <= p < pool.len() ==> !barred(input, #[trigger] pool[p]))
            ==> without_barred(input, pool) == pool,
    decreases pool.len(),
{
    if pool.len() > 0 {
        let d = pool.drop_last();
        assert forall|p: int| 0 <= p < d.len() implies store_class(input, #[trigger] d[p] as int)
            != StoreClass::Private by {
            assert(d[p] == pool[p]);
        }
        lemma_unbarred(input, d);
        assert(store_class(input, pool[pool.len() - 1] as int) != StoreClass::Private);
        if forall|p: int| 0 <= p < pool.len() ==> !barred(input, #[trigger] pool[p]) {
            assert forall|p: int| 0 <= p < d.len() implies !barred(input, #[trigger] d[p]) by {
                assert(d[p] == pool[p]);
            }
            assert(!barred(input, pool[pool.len() - 1]));
            assert(d.push(pool.last()) =~= pool);
        }
    }
}

proof fn lemma_unmarked_from(pool: Seq<usize>, marks: Seq<bool>, k: int, p: int)
    requires
        0 <= k <= pool.len(),
        0 <= p < unmarked(pool, marks, k).len(),
    ensures
        pool.contains(unmarked(pool, marks, k)[p]),
    decreases k,
{
    if k > 0 {
        if marks[k - 1] || p < unmarked(pool, marks, k - 1).len() {
            lemma_unmarked_from(pool, marks, k - 1, p);
        } else {
            assert(pool[k - 1] == unmarked(pool, marks, k)[p]);
        }
    }
}

proof fn lemma_unmarked_has(pool: Seq<usize>, marks: Seq<bool>, k: int, p: int)
    requires
        0 <= p < k <= pool.len(),
        !marks[p],
    ensures
        unmarked(pool, marks, k).contains(pool[p]),
    decreases k,
{
    let r = unmarked(pool, marks, k);
    if p == k - 1 {
        assert(r[r.len() - 1] == pool[p]);
    } else {
        lemma_unmarked_has(pool, marks, k - 1, p);
        let q = unmarked(pool, marks, k - 1);
        let i = choose|i: int| 0 <= i < q.len() && q[i] == pool[p];
        assert(r[i] == pool[p]);
    }
}

/// Private sellers are never candidates; among many stores, blacklisted sellers
/// are not either.
pub proof fn law_candidates_ship(input: &WizardInput)
    requires
        input.wf(),
    ensures
        all_public(input, candidate_stores(input)),
        input.stores() > SMALL_POOL ==> forall|p: int|
            0 <= p < candidate_stores(input).len() ==> !barred(
                input,
                #[trigger] candidate_stores(input)[p],
            ),
{
    if input.stores() <= SMALL_POOL {
        lemma_public_stores(input, input.stores() as int);
    } else {
        lemma_wide_public(input);
        let wide = wide_pool(input);
        lemma_unbarred(input, wide);
        let pool = without_barred(input, wide);
        if input.n_cards() > 1 {
            let marks = marked(input, pool, pool.len() as int);
            let r = undominated(input, pool);
            assert forall|p: int| 0 <= p < r.len() implies store_class(input, #[trigger] r[p] as int)
                != StoreClass::Private && !barred(input, r[p]) by {
                lemma_unmarked_from(pool, marks, pool.len() as int, p);
                let q = choose|q: int| 0 <= q < pool.len() && pool[q] == r[p];
                assert(!barred(input, pool[q]));
                assert(store_class(input, pool[q] as int) != StoreClass::Private);
            }
        }
    }
}

proof fn lemma_wide_public(input: &WizardInput)
    requires
        input.wf(),
    ensures
        all_public(input, wide_pool(input)),
{
    let sellers = ranked_sellers(input, StoreClass::Professional);
    let n = input.n_cards() as int;
    lemma_base_public(input);
    lemma_ranked_known(input, StoreClass::Professional);
    assert(all_public(input, sellers));
    lemma_saturate_public(input, sellers, 0, base_pool(input), 0);
    let pool = saturate(input, sellers, 0, base_pool(input), 0);
    lemma_cheapest_public(input, pool, n);
    lemma_missing_public(input, with_cheapest(input, pool, n), n);
}

/// The public stores are all there, and nothing else is.
pub proof fn lemma_public_stores(input: &WizardInput, k: int)
    requires
        k <= input.stores() <= u32::MAX,
    ensures
        all_public(input, public_stores(input, k)),
        forall|p: int|
            0 <= p < public_stores(input, k).len() ==> (#[trigger] public_stores(input, k)[p]) < k,
        forall|si: int|
            0 <= si < k && #[trigger] store_class(input, si) != StoreClass::Private
                ==> public_stores(input, k).contains(si as usize),
    decreases k,
{
    if k > 0 {
        lemma_public_stores(input, k - 1);
        let q = public_stores(input, k - 1);
        let r = public_stores(input, k);
        assert forall|si: int|
            0 <= si < k && #[trigger] store_class(input, si) != StoreClass::Private implies
            r.contains(si as usize) by {
            if si < k - 1 {
                let i = choose|i: int| 0 <= i < q.len() && q[i] == si as usize;
                assert(r[i] == si as usize);
            } else {
                assert(r[r.len() - 1] == si as usize);
            }
        }
    }
}

/// Marking dominated stores leaves every covered card covered.
proof fn lemma_marks_cover(input: &WizardInput, pool: Seq<usize>, k: int, ci: int)
    requires
        0 <= k <= pool.len(),
        0 <= ci < input.n_cards(),
        covered(input, pool, ci),
    ensures
        marked(input, pool, k).len() == pool.len(),
        exists|p: int|
            0 <= p < pool.len() && !marked(input, pool, k)[p] && input.cheapest(
                ci,
                #[trigger] pool[p] as int,
            ) is Some,
    decreases k,
{
    if k == 0 {
        let p = choose|p: int|
            0 <= p < pool.len() && input.cheapest(ci, #[trigger] pool[p] as int) is Some;
        assert(!marked(input, pool, 0)[p]);
    } else {
        lemma_marks_cover(input, pool, k - 1, ci);
        let before = marked(input, pool, k - 1);
        let p = choose|p: int|
            0 <= p < pool.len() && !before[p] && input.cheapest(
                ci,
                #[trigger] pool[p] as int,
            ) is Some;
        let after = marked(input, pool, k);
        if after[p] {
            assert(p == k - 1);
            let j = choose|j: int|
                0 <= j < pool.len() && j != k - 1 && !before[j] && dominates(
                    input,
                    #[trigger] pool[j],
                    pool[k - 1],
                );
            assert(input.cheapest(ci, pool[k - 1] as int) is Some);
            assert(input.cheapest(ci, pool[j] as int) is Some);
            assert(!after[j]);
        } else {
            assert(input.cheapest(ci, pool[p] as int) is Some);
        }
    }
}

proof fn lemma_missing_grows(input: &WizardInput, pool: Seq<usize>, j: int, k: int, ci: int)
    requires
        0 <= j <= k,
        covered(input, with_missing(input, pool, j), ci),
    ensures
        covered(input, with_missing(input, pool, k), ci),
    decreases k,
{
    if j < k {
        lemma_missing_grows(input, pool, j, k - 1, ci);
        let rest = with_missing(input, pool, k - 1);
        let more = with_missing(input, pool, k);
        let p = choose|p: int|
            0 <= p < rest.len() && input.cheapest(ci, #[trigger] rest[p] as int) is Some;
        assert(more[p] == rest[p]);
    }
}

/// The first listing that is not a private seller's is at a store that carries the card.
proof fn lemma_first_public_carries(input: &WizardInput, ci: int, at: int, oi: int)
    requires
        input.wf(),
        0 <= ci < input.n_cards(),
        0 <= at <= oi < input.options(ci).len(),
        store_class(input, input.options(ci)[oi].store_idx as int) != StoreClass::Private,
        input.options(ci)[oi].price < u32::MAX,
    ensures
        first_public(input, ci, at) is Some,
        first_public(input, ci, at)->0 < input.stores(),
        input.cheapest(ci, first_public(input, ci, at)->0 as int) is Some,
    decreases oi - at,
{
    let opts = input.options(ci);
    assert(input.card_ok(ci));
    if store_class(input, opts[at].store_idx as int) != StoreClass::Private {
        assert(opts[at].price <= opts[oi].price);
        assert(input.cell_ok(ci, opts[at].store_idx as int));
    } else {
        lemma_first_public_carries(input, ci, at + 1, oi);
    }
}

/// A card that some store carries, not being a private seller's, is carried by a
/// candidate, as long as no seller of the input is on the blacklist.
pub proof fn law_candidates_cover(input: &WizardInput, ci: int, si: int)
    requires
        input.wf(),
        0 <= ci < input.n_cards(),
        0 <= si < input.stores(),
        input.cheapest(ci, si) is Some,
        store_class(input, si) != StoreClass::Private,
        forall|s: usize| s < input.stores() ==> !#[trigger] barred(input, s),
    ensures
        covered(input, candidate_stores(input), ci),
{
    if input.stores() <= SMALL_POOL {
        lemma_public_stores(input, input.stores() as int);
        let all = public_stores(input, input.stores() as int);
        let p = choose|p: int| 0 <= p < all.len() && all[p] == si as usize;
        assert(input.cheapest(ci, all[p] as int) is Some);
    } else {
        assert(input.cell_ok(ci, si));
        let oi = input.cheapest(ci, si)->0 as int;
        lemma_first_public_carries(input, ci, 0, oi);
        let first = first_public(input, ci, 0)->0;
        let n = input.n_cards() as int;
        let pool = with_cheapest(
            input,
            saturate(
                input,
                ranked_sellers(input, StoreClass::Professional),
                0,
                base_pool(input),
                0,
            ),
            n,
        );
        let rest = with_missing(input, pool, ci);
        let more = with_missing(input, pool, ci + 1);
        assert(covered(input, more, ci)) by {
            if !covered(input, rest, ci) {
                if rest.contains(first) {
                    let q = choose|q: int| 0 <= q < rest.len() && rest[q] == first;
                    assert(input.cheapest(ci, rest[q] as int) is Some);
                } else {
                    assert(input.cheapest(ci, more[rest.len() as int] as int) is Some);
                }
            } else {
                let p = choose|p: int|
                    0 <= p < rest.len() && input.cheapest(ci, #[trigger] rest[p] as int) is Some;
                assert(more[p] == rest[p]);
            }
        }
        lemma_missing_grows(input, pool, ci + 1, n, ci);
        let wide = wide_pool(input);
        lemma_wide_public(input);
        lemma_wide_known(input);
        lemma_unbarred(input, wide);
        assert(without_barred(input, wide) == wide);
        if n > 1 {
            lemma_marks_cover(input, wide, wide.len() as int, ci);
            let marks = marked(input, wide, wide.len() as int);
            let p = choose|p: int|
                0 <= p < wide.len() && !marks[p] && input.cheapest(
                    ci,
                    #[trigger] wide[p] as int,
                ) is Some;
            lemma_unmarked_has(wide, marks, wide.len() as int, p);
            let r = undominated(input, wide);
            let q = choose|q: int| 0 <= q < r.len() && r[q] == wide[p];
            assert(input.cheapest(ci, r[q] as int) is Some);
        }
    }
}

/// Some store of the pool asks no more than `bar` for the card.
pub open spec fn offered_at(input: &WizardInput, pool: Seq<usize>, ci: int, bar: int) -> bool {
    exists|p: int|
        0 <= p < pool.len() && input.cheapest_price(ci, #[trigger] pool[p] as int) <= bar
}

/// The store of a card's cheapest listing joins, and stays.
proof fn lemma_cheapest_joins(input: &WizardInput, pool: Seq<usize>, k: int, ci: int, si: usize)
    requires
        0 <= ci < k,
        input.options(ci).len() > 0,
        input.options(ci)[0].store_idx == si,
        store_class(input, si as int) != StoreClass::Private,
    ensures
        with_cheapest(input, pool, k).contains(si),
    decreases k,
{
    let rest = with_cheapest(input, pool, k - 1);
    let more = with_cheapest(input, pool, k);
    if ci < k - 1 {
        lemma_cheapest_joins(input, pool, k - 1, ci, si);
    }
    if rest.contains(si) {
        let i = choose|i: int| 0 <= i < rest.len() && rest[i] == si;
        assert(more[i] == si);
    } else {
        assert(more[rest.len() as int] == si);
    }
}

proof fn lemma_missing_keeps(input: &WizardInput, pool: Seq<usize>, k: int, si: usize)
    requires
        0 <= k,
        pool.contains(si),
    ensures
        with_missing(input, pool, k).contains(si),
    decreases k,
{
    if k > 0 {
        lemma_missing_keeps(input, pool, k - 1, si);
        let rest = with_missing(input, pool, k - 1);
        let i = choose|i: int| 0 <= i < rest.len() && rest[i] == si;
        assert(with_missing(input, pool, k)[i] == si);
    }
}

/// Marking dominated stores leaves every price as low as it was.
proof fn lemma_marks_keep(input: &WizardInput, pool: Seq<usize>, k: int, ci: int, bar: int)
    requires
        0 <= k <= pool.len(),
        0 <= ci < input.n_cards(),
        bar < u32::MAX,
        offered_at(input, pool, ci, bar),
    ensures
        marked(input, pool, k).len() == pool.len(),
        exists|p: int|
            0 <= p < pool.len() && !marked(input, pool, k)[p] && input.cheapest_price(
                ci,
                #[trigger] pool[p] as int,
            ) <= bar,
    decreases k,
{
    if k == 0 {
        let p = choose|p: int|
            0 <= p < pool.len() && input.cheapest_price(ci, #[trigger] pool[p] as int) <= bar;
        assert(!marked(input, pool, 0)[p]);
    } else {
        lemma_marks_keep(input, pool, k - 1, ci, bar);
        let before = marked(input, pool, k - 1);
        let p = choose|p: int|
            0 <= p < pool.len() && !before[p] && input.cheapest_price(
                ci,
                #[trigger] pool[p] as int,
            ) <= bar;
        let after = marked(input, pool, k);
        if after[p] {
            assert(p == k - 1);
            let j = choose|j: int|
                0 <= j < pool.len() && j != k - 1 && !before[j] && dominates(
                    input,
                    #[trigger] pool[j],
                    pool[k - 1],
                );
            assert(input.cheapest(ci, pool[k - 1] as int) is Some);
            assert(input.cheapest_price(ci, pool[j] as int) <= bar);
            assert(!after[j]);
        } else {
            assert(input.cheapest_price(ci, pool[p] as int) <= bar);
        }
    }
}

/// The candidates keep the best price of every card whose cheapest listing is not
/// a private seller's, as long as no seller of the input is on the blacklist: one
/// of them asks no more than any store does.
pub proof fn law_candidates_keep_best_price(input: &WizardInput, ci: int, si: int)
    requires
        input.wf(),
        0 <= ci < input.n_cards(),
        0 <= si < input.stores(),
        input.cheapest(ci, si) is Some,
        store_class(input, input.options(ci)[0].store_idx as int) != StoreClass::Private,
        forall|s: usize| s < input.stores() ==> !#[trigger] barred(input, s),
    ensures
        offered_at(input, candidate_stores(input), ci, input.cheapest_price(ci, si) as int),
{
    let opts = input.options(ci);
    assert(input.card_ok(ci));
    assert(input.cell_ok(ci, si));
    let oi = input.cheapest(ci, si)->0 as int;
    let bar = input.cheapest_price(ci, si) as int;
    let best = opts[0].store_idx;
    assert(opts[0].price <= opts[oi].price);
    assert(best < input.stores());
    assert(input.cell_ok(ci, best as int));
    assert(input.cheapest_price(ci, best as int) <= bar);
    if input.stores() <= SMALL_POOL {
        lemma_public_stores(input, input.stores() as int);
        let all = public_stores(input, input.stores() as int);
        assert(all.contains(best as int as usize));
        let p = choose|p: int| 0 <= p < all.len() && all[p] == best;
        assert(input.cheapest_price(ci, all[p] as int) <= bar);
    } else {
        let n = input.n_cards() as int;
        let pool = saturate(
            input,
            ranked_sellers(input, StoreClass::Professional),
            0,
            base_pool(input),
            0,
        );
        lemma_cheapest_joins(input, pool, n, ci, best);
        lemma_missing_keeps(input, with_cheapest(input, pool, n), n, best);
        let wide = wide_pool(input);
        lemma_wide_public(input);
        lemma_wide_known(input);
        lemma_unbarred(input, wide);
        assert(without_barred(input, wide) == wide);
        let p = choose|p: int| 0 <= p < wide.len() && wide[p] == best;
        assert(input.cheapest_price(ci, wide[p] as int) <= bar);
        if n > 1 {
            lemma_marks_keep(input, wide, wide.len() as int, ci, bar);
            let marks = marked(input, wide, wide.len() as int);
            let q = choose|q: int|
                0 <= q < wide.len() && !marks[q] && input.cheapest_price(
                    ci,
                    #[trigger] wide[q] as int,
                ) <= bar;
            lemma_unmarked_has(wide, marks, wide.len() as int, q);
            let r = undominated(input, wide);
            let k = choose|k: int| 0 <= k < r.len() && r[k] == wide[q];
            assert(input.cheapest_price(ci, r[k] as int) <= bar);
        }
    }
}

proof fn lemma_saturate_known(
    input: &WizardInput,
    sellers: Seq<usize>,
    at: int,
    pool: Seq<usize>,
    fails: int,
)
    requires
        known_stores(input, pool),
        known_stores(input, sellers),
    ensures
        known_stores(input, saturate(input, sellers, at, pool, fails)),
    decreases sellers.len() - at,
{
    if !(at < 0 || at >= sellers.len() || fails >= INT_SATURATION_WINDOW) {
        if useful(input, pool, sellers[at]) {
            lemma_saturate_known(input, sellers, at + 1, pool.push(sellers[at]), 0);
        } else {
            lemma_saturate_known(input, sellers, at + 1, pool, fails + 1);
        }
    }
}

proof fn lemma_cheapest_known(input: &WizardInput, pool: Seq<usize>, k: int)
    requires
        input.wf(),
        known_stores(input, pool),
        k <= input.n_cards(),
    ensures
        known_stores(input, with_cheapest(input, pool, k)),
    decreases k,
{
    if k > 0 {
        lemma_cheapest_known(input, pool, k - 1);
        assert(input.card_ok(k - 1));
    }
}

proof fn lemma_first_known(input: &WizardInput, ci: int, at: int)
    requires
        input.wf(),
        0 <= ci < input.n_cards(),
    ensures
        first_public(input, ci, at) matches Some(si) ==> si < input.stores(),
    decreases input.options(ci).len() - at,
{
    if 0 <= at < input.options(ci).len() {
        assert(input.card_ok(ci));
        lemma_first_known(input, ci, at + 1);
    }
}

proof fn lemma_missing_known(input: &WizardInput, pool: Seq<usize>, k: int)
    requires
        input.wf(),
        known_stores(input, pool),
        k <= input.n_cards(),
    ensures
        known_stores(input, with_missing(input, pool, k)),
    decreases k,
{
    if k > 0 {
        lemma_missing_known(input, pool, k - 1);
        lemma_first_known(input, k - 1, 0);
    }
}

proof fn lemma_wide_known(input: &WizardInput)
    requires
        input.wf(),
    ensures
        known_stores(input, wide_pool(input)),
{
    let sellers = ranked_sellers(input, StoreClass::Professional);
    let n = input.n_cards() as int;
    let base = base_pool(input);
    let front = stores_of(input, StoreClass::Storefront, input.stores() as int);
    let no = ranked_sellers(input, StoreClass::Norwegian);
    lemma_stores_of(input, StoreClass::Storefront, input.stores() as int);
    lemma_ranked_known(input, StoreClass::Norwegian);
    lemma_ranked_known(input, StoreClass::Professional);
    assert forall|p: int| 0 <= p < base.len() implies (#[trigger] base[p]) < input.stores() by {
        if p < front.len() {
            assert(base[p] == front[p]);
        } else {
            assert(base[p] == no[p - front.len()]);
        }
    }
    lemma_saturate_known(input, sellers, 0, base, 0);
    let pool = saturate(input, sellers, 0, base, 0);
    lemma_cheapest_known(input, pool, n);
    lemma_missing_known(input, with_cheapest(input, pool, n), n);
}

proof fn lemma_stores_distinct(input: &WizardInput, class: StoreClass, k: int)
    requires
        input.wf(),
        0 <= k <= input.stores(),
    ensures
        stores_of(input, class, k).no_duplicates(),
    decreases k,
{
    if k > 0 {
        lemma_stores_distinct(input, class, k - 1);
        lemma_stores_of(input, class, k - 1);
    }
}

proof fn lemma_public_distinct(input: &WizardInput, k: int)
    requires
        0 <= k <= input.stores(),
        input.stores() <= u32::MAX,
    ensures
        public_stores(input, k).no_duplicates(),
        forall|p: int|
            0 <= p < public_stores(input, k).len() ==> (#[trigger] public_stores(input, k)[p]) < k,
    decreases k,
{
    if k > 0 {
        lemma_public_distinct(input, k - 1);
    }
}

/// The sellers of a class, each once.
proof fn lemma_ranked_distinct(input: &WizardInput, class: StoreClass)
    requires
        input.wf(),
    ensures
        ranked_sellers(input, class).no_duplicates(),
{
    let plain = stores_of(input, class, input.stores() as int);
    let sorted = ranked_sellers(input, class);
    lemma_stores_distinct(input, class, input.stores() as int);
    law_stable_sorted(plain, by_coverage(input));
    plain.lemma_multiset_has_no_duplicates();
    sorted.lemma_multiset_has_no_duplicates_conv();
}

proof fn lemma_base_distinct(input: &WizardInput)
    requires
        input.wf(),
    ensures
        base_pool(input).no_duplicates(),
        forall|p: int|
            0 <= p < base_pool(input).len() ==> store_class(
                input,
                (#[trigger] base_pool(input)[p]) as int,
            ) != StoreClass::Professional,
{
    let pool = base_pool(input);
    let front = stores_of(input, StoreClass::Storefront, input.stores() as int);
    let no = ranked_sellers(input, StoreClass::Norwegian);
    lemma_stores_of(input, StoreClass::Storefront, input.stores() as int);
    lemma_stores_distinct(input, StoreClass::Storefront, input.stores() as int);
    lemma_ranked_known(input, StoreClass::Norwegian);
    lemma_ranked_distinct(input, StoreClass::Norwegian);
    assert forall|p: int| 0 <= p < pool.len() implies store_class(
        input,
        (#[trigger] pool[p]) as int,
    ) == if p < front.len() {
        StoreClass::Storefront
    } else {
        StoreClass::Norwegian
    } by {
        if p < front.len() {
            assert(pool[p] == front[p]);
        } else {
            assert(pool[p] == no[p - front.len()]);
        }
    }
    assert forall|i: int, j: int| 0 <= i < pool.len() && 0 <= j < pool.len() && i != j implies pool[i]
        != pool[j] by {
        if i < front.len() && j < front.len() {
            assert(pool[i] == front[i] && pool[j] == front[j]);
        } else if i >= front.len() && j >= front.len() {
            assert(pool[i] == no[i - front.len()] && pool[j] == no[j - front.len()]);
        } else {
            assert(store_class(input, pool[i] as int) != store_class(input, pool[j] as int));
        }
    }
}

/// A pool stays distinct as long as the sellers to come are not in it.
proof fn lemma_saturate_distinct(
    input: &WizardInput,
    sellers: Seq<usize>,
    at: int,
    pool: Seq<usize>,
    fails: int,
)
    requires
        0 <= at,
        sellers.no_duplicates(),
        pool.no_duplicates(),
        forall|p: int| at <= p < sellers.len() ==> !pool.contains(#[trigger] sellers[p]),
    ensures
        saturate(input, sellers, at, pool, fails).no_duplicates(),
    decreases sellers.len() - at,
{
    if at < sellers.len() && fails < INT_SATURATION_WINDOW {
        if useful(input, pool, sellers[at]) {
            let more = pool.push(sellers[at]);
            assert(!pool.contains(sellers[at]));
            lemma_push_distinct(pool, sellers[at]);
            assert forall|p: int| at + 1 <= p < sellers.len() implies !more.contains(
                #[trigger] sellers[p],
            ) by {
                assert(!pool.contains(sellers[p]));
                assert(sellers[p] != sellers[at]);
                if more.contains(sellers[p]) {
                    let i = choose|i: int| 0 <= i < more.len() && more[i] == sellers[p];
                    assert(pool[i] == sellers[p]);
                }
            }
            lemma_saturate_distinct(input, sellers, at + 1, more, 0);
        } else {
            lemma_saturate_distinct(input, sellers, at + 1, pool, fails + 1);
        }
    }
}

proof fn lemma_push_distinct(pool: Seq<usize>, si: usize)
    requires
        pool.no_duplicates(),
        !pool.contains(si),
    ensures
        pool.push(si).no_duplicates(),
{
    let more = pool.push(si);
    assert forall|i: int, j: int| 0 <= i < more.len() && 0 <= j < more.len() && i != j implies more[i]
        != more[j] by {
        if i < pool.len() && j < pool.len() {
            assert(pool[i] != pool[j]);
        } else if i < pool.len() {
            assert(pool.contains(pool[i]));
        } else {
            assert(pool.contains(pool[j]));
        }
    }
}

proof fn lemma_cheapest_distinct(input: &WizardInput, pool: Seq<usize>, k: int)
    requires
        pool.no_duplicates(),
    ensures
        with_cheapest(input, pool, k).no_duplicates(),
    decreases k,
{
    if k > 0 {
        lemma_cheapest_distinct(input, pool, k - 1);
        let rest = with_cheapest(input, pool, k - 1);
        let opts = input.options(k - 1);
        if !rest.contains(opts[0].store_idx) {
            lemma_push_distinct(rest, opts[0].store_idx);
        }
    }
}

proof fn lemma_missing_distinct(input: &WizardInput, pool: Seq<usize>, k: int)
    requires
        pool.no_duplicates(),
    ensures
        with_missing(input, pool, k).no_duplicates(),
    decreases k,
{
    if k > 0 {
        lemma_missing_distinct(input, pool, k - 1);
        let rest = with_missing(input, pool, k - 1);
        if let Some(si) = first_public(input, k - 1, 0) {
            if !rest.contains(si) {
                lemma_push_distinct(rest, si);
            }
        }
    }
}

proof fn lemma_unbarred_distinct(input: &WizardInput, pool: Seq<usize>)
    requires
        pool.no_duplicates(),
    ensures
        without_barred(input, pool).no_duplicates(),
        forall|si: usize| #[trigger] without_barred(input, pool).contains(si) ==> pool.contains(si),
    decreases pool.len(),
{
    if pool.len() > 0 {
        let init = pool.drop_last();
        let rest = without_barred(input, init);
        assert forall|i: int, j: int| 0 <= i < init.len() && 0 <= j < init.len() && i != j implies init[i]
            != init[j] by {
            assert(pool[i] != pool[j]);
        }
        lemma_unbarred_distinct(input, init);
        assert(!init.contains(pool.last())) by {
            if init.contains(pool.last()) {
                let i = choose|i: int| 0 <= i < init.len() && init[i] == pool.last();
                assert(pool[i] != pool[pool.len() - 1]);
            }
        }
        assert forall|si: usize| #[trigger] without_barred(input, pool).contains(si) implies pool.contains(
            si,
        ) by {
            let all = without_barred(input, pool);
            let i = choose|i: int| 0 <= i < all.len() && all[i] == si;
            if i < rest.len() {
                assert(rest[i] == si);
                assert(rest.contains(si));
                assert(init.contains(si));
                let k = choose|k: int| 0 <= k < init.len() && init[k] == si;
                assert(pool[k] == si);
            } else {
                assert(pool[pool.len() - 1] == si);
            }
        }
        if !barred(input, pool.last()) {
            assert(!rest.contains(pool.last()));
            lemma_push_distinct(rest, pool.last());
        }
    }
}

proof fn lemma_unmarked_distinct(pool: Seq<usize>, marks: Seq<bool>, k: int)
    requires
        0 <= k <= pool.len(),
        pool.no_duplicates(),
    ensures
        unmarked(pool, marks, k).no_duplicates(),
        forall|si: usize| #[trigger] unmarked(pool, marks, k).contains(si) ==> exists|p: int|
            0 <= p < k && pool[p] == si,
    decreases k,
{
    if k > 0 {
        lemma_unmarked_distinct(pool, marks, k - 1);
        let rest = unmarked(pool, marks, k - 1);
        let all = unmarked(pool, marks, k);
        if !marks[k - 1] {
            assert(!rest.contains(pool[k - 1])) by {
                if rest.contains(pool[k - 1]) {
                    let last = pool[k - 1];
                    let p = choose|p: int| 0 <= p < k - 1 && pool[p] == last;
                    assert(pool[p] != pool[k - 1]);
                }
            }
            lemma_push_distinct(rest, pool[k - 1]);
        }
        assert forall|si: usize| #[trigger] all.contains(si) implies exists|p: int|
            0 <= p < k && pool[p] == si by {
            let i = choose|i: int| 0 <= i < all.len() && all[i] == si;
            if i < rest.len() {
                assert(rest[i] == si);
                assert(rest.contains(si));
                let p = choose|p: int| 0 <= p < k - 1 && pool[p] == si;
                assert(pool[p] == si);
            } else {
                assert(pool[k - 1] == si);
            }
        }
    }
}

/// No store is a candidate twice.
pub proof fn law_candidates_distinct(input: &WizardInput)
    requires
        input.wf(),
    ensures
        candidate_stores(input).no_duplicates(),
{
    let m = input.stores() as int;
    let n = input.n_cards() as int;
    if m <= SMALL_POOL {
        lemma_public_distinct(input, m);
    } else {
        let base = base_pool(input);
        let sellers = ranked_sellers(input, StoreClass::Professional);
        lemma_base_distinct(input);
        lemma_ranked_known(input, StoreClass::Professional);
        lemma_ranked_distinct(input, StoreClass::Professional);
        assert forall|p: int| 0 <= p < sellers.len() implies !base.contains(#[trigger] sellers[p]) by {
            if base.contains(sellers[p]) {
                let i = choose|i: int| 0 <= i < base.len() && base[i] == sellers[p];
                assert(store_class(input, base[i] as int) != StoreClass::Professional);
            }
        }
        lemma_saturate_distinct(input, sellers, 0, base, 0);
        let pool = saturate(input, sellers, 0, base, 0);
        lemma_cheapest_distinct(input, pool, n);
        lemma_missing_distinct(input, with_cheapest(input, pool, n), n);
        let wide = wide_pool(input);
        lemma_unbarred_distinct(input, wide);
        let open = without_barred(input, wide);
        lemma_unmarked_distinct(open, marked(input, open, open.len() as int), open.len() as int);
    }
}

} // verus!
