//! What the steps of jobs, fetches and searches change, and what they leave alone.

use crate::server::jobs::{Busy, Job, JobKind, JobResponse, JobStatus, JobTable, StorePhase};
use crate::server::results::{FetchResultData, JobResult, WizardResultData};
use crate::stores::{listings, titled, StoreResult};
use crate::stores::cardmarket::{tells_challenge, tells_dead, CardMarket, FailureAction, SubStart};
use crate::stores::collectible::redirect_results;
use crate::text::texts;
use crate::wizard::model::{WizardConfig, WizardInput};
use crate::wizard::neighbor::best_neighbor;
use crate::wizard::score::score;
use crate::wizard::scored::ScoredAssignment;
use vstd::prelude::*;

verus! {

/// A card that is done counts once, and what was found counts for its store alone;
/// the store is done with its last card.
pub proof fn law_cards_count(job: &mut Job, store: usize, found: usize, last: bool, other: int)
    requires
        store < old(job).stores@.len(),
        old(job).cards_done < usize::MAX,
        old(job).stores@[store as int].cards_found + found <= usize::MAX,
        0 <= other < old(job).stores@.len(),
        call_ensures(Job::end_card, (job, store, found, last), ()),
    ensures
        final(job).cards_done == old(job).cards_done + 1,
        final(job).stores@.len() == old(job).stores@.len(),
        final(job).stores@[store as int].cards_found == old(job).stores@[store as int].cards_found
            + found,
        last ==> final(job).stores@[store as int].phase == StorePhase::Done,
        !last ==> final(job).stores@[store as int].phase == old(job).stores@[store as int].phase,
        other != store ==> final(job).stores@[other] == old(job).stores@[other],
        final(job).status == old(job).status && final(job).cards_total == old(job).cards_total,
{
}

/// A job that starts runs; one that is done has its result, and nothing is left to
/// do; one that fails tells why.
pub proof fn law_started_jobs(job: &mut Job)
    requires
        call_ensures(Job::start, (job,), ()),
    ensures
        final(job).status == JobStatus::Running,
        final(job).kind == old(job).kind && final(job).created_at == old(job).created_at,
        final(job).result == old(job).result,
{
}

/// A fetch that is done has its result, and all cards are done.
pub proof fn law_finished_fetches(job: &mut Job, data: FetchResultData)
    requires
        call_ensures(Job::finish_fetch, (job, data), ()),
    ensures
        final(job).status == JobStatus::Done,
        final(job).cards_done == final(job).cards_total,
        final(job).cards_total == old(job).cards_total,
        final(job).result == Some(JobResult::Fetch(data)),
{
}

/// A wizard job that is done has its result in place of the partial one, and all
/// levels are done.
pub proof fn law_finished_wizards(job: &mut Job, data: WizardResultData)
    requires
        call_ensures(Job::finish_wizard, (job, data), ()),
    ensures
        final(job).status == JobStatus::Done,
        final(job).tolerance_done == final(job).tolerance_total,
        final(job).tolerance_total == old(job).tolerance_total,
        final(job).partial_result is None,
        final(job).result == Some(JobResult::Wizard(data)),
{
}

/// After the heuristic phase its result can be shown, and the levels are counted
/// from none; a level that is done counts once.
pub proof fn law_phases(job: &mut Job, data: WizardResultData)
    requires
        call_ensures(Job::end_heuristic, (job, data), ()),
    ensures
        final(job).partial_result == Some(data),
        final(job).tolerance_done == 0,
        final(job).status == old(job).status && final(job).result == old(job).result,
{
}

/// A tolerance level that is done counts once.
pub proof fn law_levels_count(job: &mut Job)
    requires
        old(job).tolerance_done < usize::MAX,
        call_ensures(Job::end_tolerance, (job,), ()),
    ensures
        final(job).tolerance_done == old(job).tolerance_done + 1,
        final(job).status == old(job).status && final(job).partial_result == old(job).partial_result,
{
}

/// A job that fails tells why.
pub proof fn law_failed_jobs(job: &mut Job, error: &str)
    requires
        call_ensures(Job::fail, (job, error), ()),
    ensures
        final(job).status == JobStatus::Failed,
        final(job).error matches Some(e) && e@ == error@,
        final(job).kind == old(job).kind && final(job).created_at == old(job).created_at,
{
}

/// The API tells of a fetch its cards and stores, and of a wizard job its levels
/// and combinations.
pub proof fn law_told_jobs(job: &Job, done: u64, r: JobResponse<'_>)
    requires
        call_ensures(Job::to_response, (job, done), r),
    ensures
        job.status == JobStatus::Done ==> r.status@ == "done"@,
        job.status == JobStatus::Failed ==> r.status@ == "failed"@,
        job.status == JobStatus::Running ==> r.status@ == "running"@,
        job.status == JobStatus::Pending ==> r.status@ == "pending"@,
        job.kind == JobKind::Fetch ==> r.kind@ == "fetch"@ && r.cards_done == job.cards_done
            && r.combos_done == 0 && r.current_card@ == job.current_card@ && r.current_store@
            == job.current_store@ && r.store_statuses is Some,
        job.kind == JobKind::Wizard ==> r.kind@ == "wizard"@ && r.cards_done == 0 && r.combos_done
            == done && r.store_statuses is None,
        r.cards_total == job.cards_total && r.combos_total == job.combos_total,
        r.tolerance_done == job.tolerance_done && r.tolerance_total == job.tolerance_total,
        *r.result == job.result && *r.partial_result == job.partial_result && *r.error == job.error,
{
}

/// A blocked store is not asked; a card that was fetched is not fetched again.
pub proof fn law_no_card_is_fetched_twice(
    store: &CardMarket,
    card: &str,
    key: &str,
    start: SubStart,
)
    requires
        store.wf(),
        call_ensures(CardMarket::start_sub, (store, card, key), start),
    ensures
        !store.semi_manual && store.block_count >= 3 ==> start is Blocked,
        store.semi_manual || store.block_count < 3 ==> {
            &&& start is Fetch <==> store.fetched(card@) is None
            &&& store.fetched(card@) matches Some(known) ==> {
                &&& key@ == "cardmarket.com"@ ==> (start matches SubStart::Known(v) && listings(v@)
                    == known.norwegian)
                &&& key@ == "cardmarket-int.com"@ ==> (start matches SubStart::Known(v)
                    && listings(v@) == known.int_powerseller)
                &&& key@ == "cardmarket-int-private.com"@ ==> (start matches SubStart::Known(v)
                    && listings(v@) == known.int_private)
            }
        },
{
    reveal_strlit("cardmarket.com");
    reveal_strlit("cardmarket-int.com");
    reveal_strlit("cardmarket-int-private.com");
    assert("cardmarket.com"@.len() == 14);
    assert("cardmarket-int.com"@.len() == 18);
    assert("cardmarket-int-private.com"@.len() == 26);
}

/// A challenge counts as a block and is left to a person where one is at hand; a
/// browser that is gone is tried again once, without what was fetched; anything
/// else is reported.
pub proof fn law_failures(
    store: &mut CardMarket,
    messages: &Vec<String>,
    attempt: u32,
    action: FailureAction,
)
    requires
        old(store).wf(),
        old(store).block_count < u32::MAX,
        messages@.len() > 0,
        call_ensures(CardMarket::after_failure, (store, messages, attempt), action),
    ensures
        tells_challenge(texts(messages@)) ==> final(store).block_count == old(store).block_count + 1 && (
        old(store).semi_manual ==> action is RescuePending) && (!old(store).semi_manual
            ==> action is Challenge),
        !tells_challenge(texts(messages@)) ==> final(store).block_count == old(store).block_count,
        !tells_challenge(texts(messages@)) && tells_dead(messages@[0]@) && attempt == 0
            ==> action is Retry,
        !tells_challenge(texts(messages@)) && (attempt > 0 || !tells_dead(messages@[0]@))
            ==> action is Report && *final(store) == *old(store),
{
    assert(texts(messages@)[0] == messages@[0]@);
    assert(texts(messages@).len() == messages@.len());
}

/// Each block counts.
pub proof fn law_blocks_count(store: &mut CardMarket)
    requires
        old(store).block_count < u32::MAX,
        call_ensures(CardMarket::record_cloudflare_block, (store,), ()),
    ensures
        final(store).block_count == old(store).block_count + 1,
        final(store).semi_manual == old(store).semi_manual,
        final(store).card_names == old(store).card_names,
{
}

/// A new batch starts unblocked and with nothing fetched.
pub proof fn law_batches_start_anew(store: &mut CardMarket, card: Seq<char>)
    requires
        call_ensures(CardMarket::teardown, (store,), ()),
    ensures
        final(store).block_count == 0,
        final(store).fetched(card) is None,
        final(store).semi_manual == old(store).semi_manual,
        final(store).rescue_queue == old(store).rescue_queue,
{
}

/// A product page that a search was sent on to is listed if its title names the
/// card.
pub proof fn law_redirected_searches(
    card: &str,
    url: &str,
    price: u32,
    title: &str,
    found: Vec<StoreResult>,
)
    requires
        call_ensures(redirect_results, (card, url, price, title), found),
    ensures
        !titled(card@, title@) ==> found@.len() == 0,
        titled(card@, title@) ==> found@.len() == 1 && found@[0]@.store == "collectible.no"@
            && found@[0]@.card == card@ && found@[0]@.price == price && found@[0]@.url == url@,
{
    assert(listings(found@).len() == found@.len());
    if titled(card@, title@) {
        assert(listings(found@)[0] == found@[0]@);
    }
}

/// A step of the climb lowers the score, and the climb ends only at an assignment
/// that no skip of a card improves.
pub proof fn law_steps_improve(
    current: &ScoredAssignment,
    input: &WizardInput,
    config: &WizardConfig,
    best: Option<ScoredAssignment>,
    ci: int,
)
    requires
        input.wf(),
        current.wf(input, config),
        call_ensures(best_neighbor, (current, input, config), best),
        0 <= ci < current.choices@.len(),
    ensures
        best matches Some(b) ==> b.score < current.score && b.score == score(
            input,
            config,
            b.choices@,
        ),
        best is None ==> score(input, config, current.choices@.update(ci, None)) >= score(
            input,
            config,
            current.choices@,
        ),
{
    if best is None {
        crate::laws::search::law_no_skip_helps(input, config, current.choices@, ci);
    }
}

/// A job of a kind may start exactly where none of the kind waits or runs among the
/// jobs that are kept.
pub proof fn law_slots_are_reserved(
    table: &mut JobTable,
    kind: JobKind,
    now: u64,
    reserved: Result<(), Busy>,
)
    requires
        call_ensures(JobTable::reserve_slot, (table, kind, now), reserved),
    ensures
        final(table)@.len() <= old(table)@.len(),
        reserved is Ok <==> final(table)@.filter(crate::server::jobs::busy(kind)).len() == 0,
        reserved matches Err(b) ==> b.kind == kind && b.ids@.len() == final(table)@.filter(
            crate::server::jobs::busy(kind),
        ).len(),
{
    old(table)@.lemma_filter_len(crate::server::jobs::kept(now));
    if let Err(b) = reserved {
        assert(texts(b.ids@).len() == b.ids@.len());
    }
}

} // verus!
