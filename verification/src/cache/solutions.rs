//! Solutions of past runs in the cache.

use crate::cache::listings::{newest, ships_here};
use crate::cache::{Cache, Tables};
use crate::json::{choices_from_json, choices_json, choices_to_json, json_choices};
use crate::order::{
    by_rank, law_stable_sorted, lemma_sorted_map, sort_by_rank, stable_sorted, Ranked,
};
use crate::rows::{lemma_filter_empty, lemma_filter_step, lemma_views_push, retain_rows, views};
use crate::text::same_text;
use crate::wizard::exhaustive::TOP_N;
use crate::wizard::solution::WizardSolution;
use vstd::prelude::*;

verus! {

pub struct SolutionRow {
    pub strategy: String,
    pub tolerance: usize,
    pub eu_destination: bool,
    pub was_exhaustive: bool,
    /// The place among the solutions for the same parameters, from 1 on.
    pub rank: usize,
    pub num_stores: usize,
    pub num_found: usize,
    pub num_skipped: usize,
    pub total_card_cost: u64,
    pub total_shipping: u64,
    pub total_cost: u64,
    pub per_card_cost: u64,
    pub assignments_json: String,
    pub created_at: i64,
    pub is_current: bool,
}

/// A `SolutionRow` as plain values.
pub struct Record {
    pub strategy: Seq<char>,
    pub tolerance: usize,
    pub eu_destination: bool,
    pub was_exhaustive: bool,
    pub rank: usize,
    pub num_stores: usize,
    pub num_found: usize,
    pub num_skipped: usize,
    pub total_card_cost: u64,
    pub total_shipping: u64,
    pub total_cost: u64,
    pub per_card_cost: u64,
    pub assignments_json: Seq<char>,
    pub created_at: i64,
    pub is_current: bool,
}

impl View for SolutionRow {
    type V = Record;

    open spec fn view(&self) -> Record {
        Record {
            strategy: self.strategy@,
            tolerance: self.tolerance,
            eu_destination: self.eu_destination,
            was_exhaustive: self.was_exhaustive,
            rank: self.rank,
            num_stores: self.num_stores,
            num_found: self.num_found,
            num_skipped: self.num_skipped,
            total_card_cost: self.total_card_cost,
            total_shipping: self.total_shipping,
            total_cost: self.total_cost,
            per_card_cost: self.per_card_cost,
            assignments_json: self.assignments_json@,
            created_at: self.created_at,
            is_current: self.is_current,
        }
    }
}

/// A recorded solution.
pub struct WizardHistory {
    pub tolerance: usize,
    pub num_stores: usize,
    pub num_skipped: usize,
    pub total_cost: u64,
    pub raw_choices: Vec<Option<usize>>,
}

/// A `WizardHistory` as plain values.
pub struct Past {
    pub tolerance: usize,
    pub num_stores: usize,
    pub num_skipped: usize,
    pub total_cost: u64,
    pub raw_choices: Seq<Option<usize>>,
}

impl View for WizardHistory {
    type V = Past;

    open spec fn view(&self) -> Past {
        Past {
            tolerance: self.tolerance,
            num_stores: self.num_stores,
            num_skipped: self.num_skipped,
            total_cost: self.total_cost,
            raw_choices: self.raw_choices@,
        }
    }
}

/// What a record tells of a past run; choices that cannot be read count as none.
pub open spec fn past_of(row: Record) -> Past {
    Past {
        tolerance: row.tolerance,
        num_stores: row.num_stores,
        num_skipped: row.num_skipped,
        total_cost: row.total_cost,
        raw_choices: match json_choices(row.assignments_json) {
            Some(ch) => ch,
            None => Seq::empty(),
        },
    }
}

/// What a solution costs per card that was found.
pub open spec fn per_card(total: int, found: int) -> int {
    if found > 0 {
        total / found
    } else {
        0
    }
}

/// The record of a solution.
pub open spec fn record_of(
    strategy: Seq<char>,
    tolerance: usize,
    eu_destination: bool,
    was_exhaustive: bool,
    rank: usize,
    solution: &WizardSolution,
    now: i64,
) -> Record {
    let found = solution.assignments@.len() - solution.skipped@.len();
    let total = solution.total_card_cost + solution.total_shipping;
    Record {
        strategy,
        tolerance,
        eu_destination,
        was_exhaustive,
        rank,
        num_stores: solution.num_stores,
        num_found: found as usize,
        num_skipped: solution.skipped@.len() as usize,
        total_card_cost: solution.total_card_cost,
        total_shipping: solution.total_shipping,
        total_cost: total as u64,
        per_card_cost: per_card(total, found) as u64,
        assignments_json: choices_json(solution.raw_choices@),
        created_at: now,
        is_current: true,
    }
}

/// What a past run tells once the solution is recorded.
pub open spec fn past_solution(tolerance: usize, solution: &WizardSolution) -> Past {
    Past {
        tolerance,
        num_stores: solution.num_stores,
        num_skipped: solution.skipped@.len() as usize,
        total_cost: (solution.total_card_cost + solution.total_shipping) as u64,
        raw_choices: solution.raw_choices@,
    }
}

/// Not the record in the same place.
pub open spec fn elsewhere(new: Record) -> spec_fn(Record) -> bool {
    |row: Record|
        row.strategy != new.strategy || row.tolerance != new.tolerance || row.eu_destination
            != new.eu_destination || row.rank != new.rank
}

/// The solutions with one more, in place of the one in the same place.
pub open spec fn with_solution(rows: Seq<Record>, new: Record) -> Seq<Record> {
    rows.filter(elsewhere(new)).push(new)
}

/// A record that is no longer current if it is for the strategy and destination.
pub open spec fn retired(row: Record, strategy: Seq<char>, eu_destination: bool) -> Record {
    if row.strategy == strategy && row.eu_destination == eu_destination {
        Record { is_current: false, ..row }
    } else {
        row
    }
}

/// Not older than the newest listing.
pub open spec fn up_to_date(latest: Option<i64>) -> spec_fn(Record) -> bool {
    |row: Record|
        match latest {
            Some(at) => row.created_at >= at,
            None => true,
        }
}

pub open spec fn for_eu() -> spec_fn(Record) -> bool {
    |row: Record| row.eu_destination
}

pub open spec fn for_run(strategy: Seq<char>, eu_destination: bool) -> spec_fn(Record) -> bool {
    |row: Record| row.strategy == strategy && row.eu_destination == eu_destination
}

pub open spec fn for_tolerance(
    strategy: Seq<char>,
    tolerance: usize,
    eu_destination: bool,
) -> spec_fn(Record) -> bool {
    |row: Record|
        row.strategy == strategy && row.eu_destination == eu_destination && row.tolerance
            == tolerance
}

pub open spec fn by_cost() -> spec_fn(Record) -> int {
    |row: Record| row.total_cost as int
}

/// A past run and whether it was exhaustive.
pub open spec fn past_run(row: Record) -> (Past, bool) {
    (past_of(row), row.was_exhaustive)
}

pub open spec fn by_place() -> spec_fn(Record) -> int {
    |row: Record| row.rank as int
}

/// At most `n` of the first entries.
pub open spec fn first_of<A>(s: Seq<A>, n: nat) -> Seq<A> {
    if s.len() <= n {
        s
    } else {
        s.take(n as int)
    }
}

/// The first few past runs for some parameters, in the order of their ranks.
pub open spec fn past_runs(
    t: Tables,
    strategy: Seq<char>,
    tolerance: usize,
    eu_destination: bool,
) -> Seq<(Past, bool)> {
    first_of(
        stable_sorted(
            t.solutions.filter(for_tolerance(strategy, tolerance, eu_destination)),
            by_place(),
        ).map_values(|row: Record| past_run(row)),
        TOP_N as nat,
    )
}

/// Every record has a place of its own, from 1 on.
pub open spec fn own_places(rows: Seq<Record>) -> bool {
    &&& forall|i: int| 0 <= i < rows.len() ==> (#[trigger] rows[i]).rank >= 1
    &&& forall|i: int, j: int|
        0 <= i < rows.len() && 0 <= j < rows.len() && i != j ==> elsewhere(#[trigger] rows[i])(
            #[trigger] rows[j],
        )
}

/// The first run for each tolerance.
pub open spec fn first_per_tolerance(runs: Seq<Past>) -> Seq<Past>
    decreases runs.len(),
{
    if runs.len() == 0 {
        Seq::empty()
    } else {
        let rest = first_per_tolerance(runs.drop_last());
        if exists|i: int| 0 <= i < rest.len() && #[trigger] rest[i].tolerance == runs.last().tolerance {
            rest
        } else {
            rest.push(runs.last())
        }
    }
}

/// The cheapest past run for each tolerance.
pub open spec fn best_runs(t: Tables, strategy: Seq<char>, eu_destination: bool) -> Seq<Past> {
    first_per_tolerance(
        stable_sorted(t.solutions.filter(for_run(strategy, eu_destination)), by_cost()).map_values(
            |row: Record| past_of(row),
        ),
    )
}

/// A past run and whether it was exhaustive.
struct Run {
    history: WizardHistory,
    exhaustive: bool,
}

impl View for Run {
    type V = (Past, bool);

    closed spec fn view(&self) -> (Past, bool) {
        (self.history@, self.exhaustive)
    }
}

/// A row to put in order.
struct Place {
    order: u64,
    at: usize,
}

impl Ranked for Place {
    closed spec fn rank(&self) -> int {
        self.order as int
    }

    fn get_rank(&self) -> (r: u64) {
        self.order
    }
}

/// What a row tells of a past run.
fn run_of(row: &SolutionRow) -> (run: Run)
    ensures
        run@ == past_run(row@),
{
    let raw_choices = match choices_from_json(&row.assignments_json) {
        Some(choices) => choices,
        None => Vec::new(),
    };
    let history = WizardHistory {
        tolerance: row.tolerance,
        num_stores: row.num_stores,
        num_skipped: row.num_skipped,
        total_cost: row.total_cost,
        raw_choices,
    };
    assert(history@.raw_choices =~= past_of(row@).raw_choices);
    Run { history, exhaustive: row.was_exhaustive }
}

/// What past runs are ordered by: their rank or their cost.
spec fn order_by(ranked: bool) -> spec_fn(Record) -> int {
    if ranked {
        by_place()
    } else {
        by_cost()
    }
}

/// The runs that `keep` keeps, by rank or cheapest first.
fn sorted_runs<F: Fn(&SolutionRow) -> bool>(
    rows: &Vec<SolutionRow>,
    keep: F,
    ranked: bool,
    Ghost(p): Ghost<spec_fn(Record) -> bool>,
) -> (runs: Vec<Run>)
    requires
        forall|t: SolutionRow| call_requires(keep, (&t,)),
        forall|t: SolutionRow, b: bool| call_ensures(keep, (&t,), b) ==> b == p(t@),
    ensures
        views(runs@) == stable_sorted(views(rows@).filter(p), order_by(ranked)).map_values(
            |row: Record| past_run(row),
        ),
{
    let ghost all = views(rows@);
    let ghost f = |pl: Place| all[pl.at as int];
    let ghost key = order_by(ranked);
    let mut places: Vec<Place> = Vec::new();
    let mut i: usize = 0;
    proof {
        lemma_filter_empty(p);
        assert(all.take(0) =~= Seq::empty());
        assert(places@.map_values(f) =~= all.take(0).filter(p));
    }
    while i < rows.len()
        invariant
            forall|t: SolutionRow| call_requires(keep, (&t,)),
            forall|t: SolutionRow, b: bool| call_ensures(keep, (&t,), b) ==> b == p(t@),
            all == views(rows@),
            f == (|pl: Place| all[pl.at as int]),
            key == order_by(ranked),
            i <= rows@.len(),
            places@.map_values(f) == all.take(i as int).filter(p),
            forall|k: int|
                0 <= k < places@.len() ==> (#[trigger] places@[k]).at < rows@.len()
                    && places@[k].order == key(all[places@[k].at as int]),
        decreases rows@.len() - i,
    {
        proof {
            lemma_filter_step(all, i as int, p);
            assert(all[i as int] == rows@[i as int]@);
        }
        if keep(&rows[i]) {
            let order: u64 = if ranked {
                rows[i].rank as u64
            } else {
                rows[i].total_cost
            };
            let place = Place { order, at: i };
            let ghost before = places@;
            places.push(place);
            proof {
                assert(places@.map_values(f) =~= before.map_values(f).push(all[i as int]));
            }
        }
        i += 1;
    }
    proof {
        assert(all.take(i as int) =~= all);
        lemma_sorted_map(places@, by_rank::<Place>(), f, key);
        law_stable_sorted(places@, by_rank::<Place>());
    }
    let ghost given = places@;
    let places = sort_by_rank(places);
    let ghost sorted = stable_sorted(all.filter(p), key);
    let mut runs: Vec<Run> = Vec::new();
    let mut k: usize = 0;
    assert forall|j: int| 0 <= j < places@.len() implies given.contains(#[trigger] places@[j]) by {
        assert(places@.contains(places@[j]));
    }
    while k < places.len()
        invariant
            all == views(rows@),
            f == (|pl: Place| all[pl.at as int]),
            sorted == places@.map_values(f),
            k <= places@.len(),
            runs@.len() == k,
            forall|j: int| 0 <= j < k ==> (#[trigger] runs@[j])@ == past_run(sorted[j]),
            forall|j: int|
                0 <= j < places@.len() ==> given.contains(#[trigger] places@[j]),
            forall|j: int| 0 <= j < given.len() ==> (#[trigger] given[j]).at < rows@.len(),
        decreases places@.len() - k,
    {
        proof {
            assert(given.contains(places@[k as int]));
            let j = choose|j: int| 0 <= j < given.len() && given[j] == places@[k as int];
            assert(given[j].at < rows@.len());
        }
        let at: usize = places[k].at;
        runs.push(run_of(&rows[at]));
        proof {
            assert(sorted[k as int] == all[at as int]);
            assert(all[at as int] == rows@[at as int]@);
        }
        k += 1;
    }
    assert(views(runs@) =~= sorted.map_values(|row: Record| past_run(row)));
    runs
}

pub open spec fn run_views(v: Seq<(WizardHistory, bool)>) -> Seq<(Past, bool)> {
    v.map_values(|r: (WizardHistory, bool)| (r.0@, r.1))
}

impl Cache {
    /// Records a solution in its place.
    pub fn save_wizard_solution(
        &mut self,
        strategy: &str,
        tolerance: usize,
        eu_destination: bool,
        was_exhaustive: bool,
        rank: usize,
        solution: &WizardSolution,
        now: i64,
    )
        requires
            solution.skipped@.len() <= solution.assignments@.len(),
            solution.total_card_cost + solution.total_shipping <= u64::MAX,
        ensures
            final(self)@.solutions == with_solution(
                old(self)@.solutions,
                record_of(
                    strategy@,
                    tolerance,
                    eu_destination,
                    was_exhaustive,
                    rank,
                    solution,
                    now,
                ),
            ),
            own_places(old(self)@.solutions) && 1 <= rank ==> {
                &&& own_places(final(self)@.solutions)
                &&& rank <= TOP_N ==> past_runs(
                    final(self)@,
                    strategy@,
                    tolerance,
                    eu_destination,
                ).contains((past_solution(tolerance, solution), was_exhaustive))
            },
            final(self)@.listings == old(self)@.listings,
            final(self)@.names == old(self)@.names,
    {
        let num_found: usize = solution.assignments.len() - solution.skipped.len();
        let total_cost: u64 = solution.total_card_cost + solution.total_shipping;
        let per_card_cost: u64 = if num_found > 0 {
            total_cost / num_found as u64
        } else {
            0
        };
        let row = SolutionRow {
            strategy: strategy.to_owned(),
            tolerance,
            eu_destination,
            was_exhaustive,
            rank,
            num_stores: solution.num_stores,
            num_found,
            num_skipped: solution.skipped.len(),
            total_card_cost: solution.total_card_cost,
            total_shipping: solution.total_shipping,
            total_cost,
            per_card_cost,
            assignments_json: choices_to_json(&solution.raw_choices),
            created_at: now,
            is_current: true,
        };
        let new = &row;
        let ghost p = elsewhere(row@);
        let other = |old_row: &SolutionRow| -> (b: bool)
            ensures
                b == p(old_row@),
            {
                !same_text(&old_row.strategy, &new.strategy) || old_row.tolerance != new.tolerance
                    || old_row.eu_destination != new.eu_destination || old_row.rank != new.rank
            };
        retain_rows(&mut self.solutions, other, Ghost(p));
        proof {
            lemma_views_push(self.solutions@, row);
        }
        self.solutions.push(row);
        proof {
            assert(self@.solutions[self@.solutions.len() - 1] == row@);
            if own_places(old(self)@.solutions) && 1 <= rank {
                lemma_places_kept(old(self)@.solutions, row@);
                if rank <= TOP_N {
                    law_reads_back(self@, row@);
                }
            }
            assert(past_run(row@) == (past_solution(tolerance, solution), was_exhaustive));
        }
    }

    /// Marks the solutions for the strategy and destination as not current.
    pub fn clear_current_solutions(&mut self, strategy: &str, eu_destination: bool)
        ensures
            final(self)@.solutions == old(self)@.solutions.map_values(
                |row: Record| retired(row, strategy@, eu_destination),
            ),
            final(self)@.listings == old(self)@.listings,
            final(self)@.names == old(self)@.names,
    {
        let ghost all = self@.solutions;
        let ghost f = |row: Record| retired(row, strategy@, eu_destination);
        let mut i: usize = 0;
        while i < self.solutions.len()
            invariant
                f == (|row: Record| retired(row, strategy@, eu_destination)),
                i <= self.solutions@.len(),
                self.solutions@.len() == all.len(),
                forall|k: int| 0 <= k < i ==> (#[trigger] self.solutions@[k])@ == f(all[k]),
                forall|k: int| i <= k < all.len() ==> (#[trigger] self.solutions@[k])@ == all[k],
                self@.listings == old(self)@.listings,
                self@.names == old(self)@.names,
            decreases self.solutions@.len() - i,
        {
            if same_text(&self.solutions[i].strategy, strategy) && self.solutions[i].eu_destination
                == eu_destination {
                self.solutions[i].is_current = false;
            }
            i += 1;
        }
        assert(self@.solutions =~= all.map_values(f));
    }

    /// Drops the solutions that are older than the newest listing: they were
    /// computed on stale data.
    pub fn prune_stale_solutions(&mut self)
        ensures
            final(self)@.solutions == old(self)@.solutions.filter(
                up_to_date(newest(old(self)@.listings)),
            ),
            final(self)@.listings == old(self)@.listings,
            final(self)@.names == old(self)@.names,
    {
        let latest: Option<i64> = self.newest_listing();
        let ghost p = up_to_date(latest);
        let fresh = |row: &SolutionRow| -> (b: bool)
            ensures
                b == p(row@),
            {
                match latest {
                    Some(at) => row.created_at >= at,
                    None => true,
                }
            };
        retain_rows(&mut self.solutions, fresh, Ghost(p));
    }

    /// Where a listing is from a blacklisted seller, drops such listings and the
    /// solutions for Norway: within the EU those sellers may still ship.  How
    /// many solutions were dropped?
    pub fn prune_blacklisted_solutions(&mut self) -> (dropped: usize)
        ensures
            ({
                let any = exists|i: int|
                    0 <= i < old(self)@.listings.len() && !#[trigger] ships_here()(
                        old(self)@.listings[i],
                    );
                &&& final(self)@.listings == old(self)@.listings.filter(ships_here())
                &&& final(self)@.solutions == if any {
                    old(self)@.solutions.filter(for_eu())
                } else {
                    old(self)@.solutions
                }
                &&& dropped == old(self)@.solutions.len() - final(self)@.solutions.len()
                &&& final(self)@.names == old(self)@.names
            }),
    {
        let before: usize = self.solutions.len();
        let any: bool = self.drop_blacklisted();
        if any {
            let ghost p = for_eu();
            let ghost all = self@.solutions;
            let keep = |row: &SolutionRow| -> (b: bool)
                ensures
                    b == p(row@),
                { row.eu_destination };
            retain_rows(&mut self.solutions, keep, Ghost(p));
            proof {
                all.lemma_filter_len(p);
                assert(self@.solutions.len() == self.solutions@.len());
            }
            before - self.solutions.len()
        } else {
            0
        }
    }

    /// The cheapest past run for each tolerance.
    pub fn load_best_solutions(&self, strategy: &str, eu_destination: bool) -> (best: Vec<
        WizardHistory,
    >)
        ensures
            views(best@) == best_runs(self@, strategy@, eu_destination),
    {
        let ghost p = for_run(strategy@, eu_destination);
        let keep = |row: &SolutionRow| -> (b: bool)
            ensures
                b == p(row@),
            { same_text(&row.strategy, strategy) && row.eu_destination == eu_destination };
        let mut runs = sorted_runs(&self.solutions, keep, false, Ghost(p));
        let ghost sorted = stable_sorted(self@.solutions.filter(p), by_cost());
        let ghost all = sorted.map_values(|row: Record| past_of(row));
        let ghost whole = views(runs@);
        let mut best: Vec<WizardHistory> = Vec::new();
        let ghost mut done: int = 0;
        proof {
            assert(all.take(0) =~= Seq::empty());
            assert(views(best@) =~= Seq::empty());
            assert(whole.skip(0) =~= whole);
        }
        while runs.len() > 0
            invariant
                0 <= done <= all.len(),
                all.len() == whole.len(),
                forall|k: int| 0 <= k < all.len() ==> #[trigger] all[k] == whole[k].0,
                views(runs@) == whole.skip(done),
                views(best@) == first_per_tolerance(all.take(done)),
            decreases runs@.len(),
        {
            let ghost before = runs@;
            let run = runs.remove(0);
            proof {
                assert(views(before).len() == before.len());
                assert(views(before)[0] == run@);
                assert(whole.skip(done)[0] == whole[done]);
                assert(all[done] == run.history@);
                assert(views(runs@) =~= views(before).skip(1));
                assert(whole.skip(done + 1) =~= whole.skip(done).skip(1));
                let t = all.take(done + 1);
                assert(t.drop_last() =~= all.take(done));
                assert(t.last() == all[done]);
            }
            if !knows_tolerance(&best, run.history.tolerance) {
                proof {
                    lemma_views_push(best@, run.history);
                }
                best.push(run.history);
            }
            proof {
                done = done + 1;
            }
        }
        proof {
            assert(views(runs@).len() == 0);
            assert(all.take(done) =~= all);
        }
        best
    }

    /// The first few past runs for some parameters, in the order of their ranks,
    /// each with whether it was exhaustive.
    pub fn get_cached_solutions(
        &self,
        strategy: &str,
        tolerance: usize,
        eu_destination: bool,
    ) -> (found: Vec<(WizardHistory, bool)>)
        ensures
            run_views(found@) == past_runs(self@, strategy@, tolerance, eu_destination),
    {
        let ghost p = for_tolerance(strategy@, tolerance, eu_destination);
        let keep = |row: &SolutionRow| -> (b: bool)
            ensures
                b == p(row@),
            {
                same_text(&row.strategy, strategy) && row.eu_destination == eu_destination
                    && row.tolerance == tolerance
            };
        let mut runs = sorted_runs(&self.solutions, keep, true, Ghost(p));
        let ghost whole = views(runs@);
        let mut found: Vec<(WizardHistory, bool)> = Vec::new();
        let ghost mut done: int = 0;
        proof {
            assert(whole.skip(0) =~= whole);
            assert(run_views(found@) =~= whole.take(0));
        }
        while runs.len() > 0 && found.len() < TOP_N
            invariant
                0 <= done <= whole.len(),
                done == found@.len(),
                done <= TOP_N,
                views(runs@) == whole.skip(done),
                run_views(found@) == whole.take(done),
            decreases runs@.len(),
        {
            let ghost before = runs@;
            let ghost f0 = found@;
            let run = runs.remove(0);
            found.push((run.history, run.exhaustive));
            proof {
                assert(views(before).len() == before.len());
                assert(views(before)[0] == run@);
                assert(whole.skip(done)[0] == whole[done]);
                assert(views(runs@) =~= views(before).skip(1));
                assert(whole.skip(done + 1) =~= whole.skip(done).skip(1));
                assert(run_views(found@) =~= run_views(f0).push(run@));
                assert(whole.take(done + 1) =~= whole.take(done).push(whole[done]));
                done = done + 1;
            }
        }
        proof {
            assert(views(runs@).len() == runs@.len());
            assert(first_of(whole, TOP_N as nat) =~= whole.take(done));
        }
        found
    }
}

/// Fewer records keep their places.
proof fn lemma_filter_places(rows: Seq<Record>, p: spec_fn(Record) -> bool)
    requires
        own_places(rows),
    ensures
        own_places(rows.filter(p)),
    decreases rows.len(),
{
    reveal(Seq::filter);
    if rows.len() > 0 {
        let rest = rows.drop_last();
        let last = rows.last();
        assert(own_places(rest)) by {
            assert forall|i: int, j: int|
                0 <= i < rest.len() && 0 <= j < rest.len() && i != j implies elsewhere(
                #[trigger] rest[i],
            )(#[trigger] rest[j]) by {
                assert(elsewhere(rows[i])(rows[j]));
            }
            assert forall|i: int| 0 <= i < rest.len() implies (#[trigger] rest[i]).rank >= 1 by {
                assert(rows[i].rank >= 1);
            }
        }
        lemma_filter_places(rest, p);
        let kept = rest.filter(p);
        assert forall|i: int| 0 <= i < kept.len() implies elsewhere(#[trigger] kept[i])(last)
            && elsewhere(last)(kept[i]) by {
            assert(kept.contains(kept[i]));
            rest.lemma_filter_contains_rev(p, kept[i]);
            let k = choose|k: int| 0 <= k < rest.len() && rest[k] == kept[i];
            assert(rows[k] == kept[i] && rows[rows.len() - 1] == last);
            assert(elsewhere(rows[k])(rows[rows.len() - 1]));
        }
        assert(rows[rows.len() - 1].rank >= 1);
    }
}

/// A record put in its place leaves every record with a place of its own.
proof fn lemma_places_kept(rows: Seq<Record>, new: Record)
    requires
        own_places(rows),
        new.rank >= 1,
    ensures
        own_places(with_solution(rows, new)),
{
    let p = elsewhere(new);
    let kept = rows.filter(p);
    lemma_filter_places(rows, p);
    assert forall|i: int| 0 <= i < kept.len() implies elsewhere(#[trigger] kept[i])(new)
        && elsewhere(new)(kept[i]) by {
        rows.lemma_filter_pred(p, i);
    }
}

/// Sorted by place, records with places of their own come in strictly ascending
/// ranks, and every record for the parameters is there.
proof fn lemma_sorted_places(
    t: Tables,
    strategy: Seq<char>,
    tolerance: usize,
    eu_destination: bool,
) -> (sorted: Seq<Record>)
    requires
        own_places(t.solutions),
    ensures
        sorted == stable_sorted(
            t.solutions.filter(for_tolerance(strategy, tolerance, eu_destination)),
            by_place(),
        ),
        forall|i: int| 0 <= i < sorted.len() ==> (#[trigger] sorted[i]).rank > i,
        forall|i: int, j: int|
            0 <= i < j < sorted.len() ==> (#[trigger] sorted[i]).rank < (#[trigger] sorted[j]).rank,
        forall|row: Record|
            t.solutions.contains(row) && for_tolerance(strategy, tolerance, eu_destination)(row)
                ==> #[trigger] sorted.contains(row),
{
    broadcast use vstd::seq_lib::group_to_multiset_ensures;

    let p = for_tolerance(strategy, tolerance, eu_destination);
    let found = t.solutions.filter(p);
    lemma_filter_places(t.solutions, p);
    law_stable_sorted(found, by_place());
    let sorted = stable_sorted(found, by_place());
    assert(found.no_duplicates()) by {
        assert forall|i: int, j: int|
            0 <= i < found.len() && 0 <= j < found.len() && i != j implies found[i] != found[j] by {
            assert(elsewhere(found[i])(found[j]));
        }
    }
    found.lemma_multiset_has_no_duplicates();
    sorted.lemma_multiset_has_no_duplicates_conv();
    assert forall|i: int| 0 <= i < sorted.len() implies (#[trigger] sorted[i]).rank >= 1 by {
        assert(sorted.contains(sorted[i]));
        let a = choose|a: int| 0 <= a < found.len() && found[a] == sorted[i];
        assert(found[a].rank >= 1);
    }
    assert forall|i: int, j: int| 0 <= i < j < sorted.len() implies (#[trigger] sorted[i]).rank < (
    #[trigger] sorted[j]).rank by {
        assert(sorted.contains(sorted[i]) && sorted.contains(sorted[j]));
        assert(found.contains(sorted[i]) && found.contains(sorted[j]));
        let a = choose|a: int| 0 <= a < found.len() && found[a] == sorted[i];
        let b = choose|b: int| 0 <= b < found.len() && found[b] == sorted[j];
        assert(a != b);
        assert(elsewhere(found[a])(found[b]));
        t.solutions.lemma_filter_pred(p, a);
        t.solutions.lemma_filter_pred(p, b);
        assert(by_place()(sorted[i]) <= by_place()(sorted[j]));
    }
    assert forall|i: int| 0 <= i < sorted.len() implies (#[trigger] sorted[i]).rank > i by {
        lemma_climbing(sorted, i);
    }
    assert forall|row: Record| t.solutions.contains(row) && p(row) implies #[trigger] sorted.contains(
        row,
    ) by {
        let at = choose|i: int| 0 <= i < t.solutions.len() && t.solutions[i] == row;
        t.solutions.lemma_filter_contains(p, at);
    }
    sorted
}

proof fn lemma_climbing(sorted: Seq<Record>, i: int)
    requires
        0 <= i < sorted.len(),
        forall|k: int| 0 <= k < sorted.len() ==> (#[trigger] sorted[k]).rank >= 1,
        forall|j: int, k: int|
            0 <= j < k < sorted.len() ==> (#[trigger] sorted[j]).rank < (#[trigger] sorted[k]).rank,
    ensures
        sorted[i].rank > i,
    decreases i,
{
    if i > 0 {
        lemma_climbing(sorted, i - 1);
        assert(sorted[i - 1].rank < sorted[i].rank);
    }
}

/// Where every record has a place of its own, a record of one of the first ranks
/// is among the past runs for its parameters.
pub proof fn law_reads_back(t: Tables, row: Record)
    requires
        own_places(t.solutions),
        t.solutions.contains(row),
        row.rank <= TOP_N,
    ensures
        past_runs(t, row.strategy, row.tolerance, row.eu_destination).contains(past_run(row)),
{
    let sorted = lemma_sorted_places(t, row.strategy, row.tolerance, row.eu_destination);
    assert(sorted.contains(row));
    let k = choose|k: int| 0 <= k < sorted.len() && sorted[k] == row;
    assert(sorted[k].rank > k);
    let all = sorted.map_values(|r: Record| past_run(r));
    assert(first_of(all, TOP_N as nat)[k] == past_run(row));
}

/// A record with these parameters and this rank is there.
pub open spec fn placed_at(rows: Seq<Record>, like: Record, rank: usize) -> bool {
    exists|r: Record| #[trigger]
        rows.contains(r) && for_tolerance(like.strategy, like.tolerance, like.eu_destination)(r)
            && r.rank == rank
}

/// Where all lower ranks are taken too, the record of a rank is the past run in
/// that place.
pub proof fn law_reads_back_in_place(t: Tables, row: Record)
    requires
        own_places(t.solutions),
        t.solutions.contains(row),
        1 <= row.rank <= TOP_N,
        forall|q: usize| 1 <= q < row.rank ==> #[trigger] placed_at(t.solutions, row, q),
    ensures
        ({
            let runs = past_runs(t, row.strategy, row.tolerance, row.eu_destination);
            runs.len() >= row.rank && runs[row.rank - 1] == past_run(row)
        }),
{
    let sorted = lemma_sorted_places(t, row.strategy, row.tolerance, row.eu_destination);
    assert(sorted.contains(row));
    let k = choose|k: int| 0 <= k < sorted.len() && sorted[k] == row;
    assert(sorted[k].rank > k);
    lemma_ranks_filled(t.solutions, sorted, row, (row.rank - 1) as nat);
    if k < row.rank - 1 {
        assert(sorted[k].rank == k + 1);
    }
    let all = sorted.map_values(|r: Record| past_run(r));
    assert(first_of(all, TOP_N as nat)[k] == past_run(row));
}

/// The first ranks stand in their places.
proof fn lemma_ranks_filled(rows: Seq<Record>, sorted: Seq<Record>, like: Record, n: nat)
    requires
        n < like.rank,
        forall|q: usize| 1 <= q < like.rank ==> #[trigger] placed_at(rows, like, q),
        forall|i: int| 0 <= i < sorted.len() ==> (#[trigger] sorted[i]).rank > i,
        forall|r: Record|
            rows.contains(r) && for_tolerance(like.strategy, like.tolerance, like.eu_destination)(r)
                ==> #[trigger] sorted.contains(r),
    ensures
        n <= sorted.len(),
        forall|i: int| 0 <= i < n ==> (#[trigger] sorted[i]).rank == i + 1,
    decreases n,
{
    if n > 0 {
        lemma_ranks_filled(rows, sorted, like, (n - 1) as nat);
        assert(placed_at(rows, like, n as usize));
        let r = choose|r: Record| #[trigger]
            rows.contains(r) && for_tolerance(like.strategy, like.tolerance, like.eu_destination)(r)
                && r.rank == n as usize;
        assert(sorted.contains(r));
        let j = choose|j: int| 0 <= j < sorted.len() && sorted[j] == r;
        assert(sorted[j].rank > j);
        if j < n - 1 {
            assert(sorted[j].rank == j + 1);
        }
    }
}

/// Is there a run for the tolerance?
fn knows_tolerance(runs: &Vec<WizardHistory>, tolerance: usize) -> (b: bool)
    ensures
        b == exists|i: int|
            0 <= i < views(runs@).len() && #[trigger] views(runs@)[i].tolerance == tolerance,
{
    let ghost all = views(runs@);
    let mut i: usize = 0;
    while i < runs.len()
        invariant
            all == views(runs@),
            i <= runs@.len(),
            forall|k: int| 0 <= k < i ==> #[trigger] all[k].tolerance != tolerance,
        decreases runs@.len() - i,
    {
        assert(all[i as int] == runs@[i as int]@);
        if runs[i].tolerance == tolerance {
            assert(all[i as int].tolerance == tolerance);
            return true;
        }
        i += 1;
    }
    false
}

} // verus!
