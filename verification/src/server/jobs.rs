//! Background jobs: their progress, and how many may run.

use crate::random::{alphanumeric, is_alphanumeric};
use crate::rows::{
    lemma_filter_empty, lemma_filter_push, lemma_filter_step, lemma_filter_twice, lemma_views_push,
    retain_rows, views,
};
use crate::server::results::{FetchResultData, JobResult, WizardResultData};
use crate::text::{decimal, decimal_text, joined, same_text, texts};
use rand::rngs::StdRng;
use vstd::prelude::*;

verus! {

/// Maximum number of jobs of one kind that wait or run, to respect the stores'
/// rate limits.
pub const MAX_ACTIVE_JOBS: usize = 1;

/// How long a finished job is kept (in seconds): 30 minutes.
pub const JOB_TTL: u64 = 1800;

#[derive(Debug, PartialEq, Eq, Structural, Clone, Copy)]
pub enum JobKind {
    Fetch,
    Wizard,
}

impl JobKind {
    pub open spec fn label(self) -> Seq<char> {
        match self {
            JobKind::Fetch => "fetch"@,
            JobKind::Wizard => "wizard"@,
        }
    }

    pub fn name(self) -> (name: &'static str)
        ensures
            name@ == self.label(),
    {
        match self {
            JobKind::Fetch => "fetch",
            JobKind::Wizard => "wizard",
        }
    }
}

#[derive(Debug, PartialEq, Eq, Structural, Clone, Copy)]
pub enum JobStatus {
    Pending,
    Running,
    Done,
    Failed,
}

impl JobStatus {
    pub open spec fn label(self) -> Seq<char> {
        match self {
            JobStatus::Pending => "pending"@,
            JobStatus::Running => "running"@,
            JobStatus::Done => "done"@,
            JobStatus::Failed => "failed"@,
        }
    }

    pub fn name(self) -> (name: &'static str)
        ensures
            name@ == self.label(),
    {
        match self {
            JobStatus::Pending => "pending",
            JobStatus::Running => "running",
            JobStatus::Done => "done",
            JobStatus::Failed => "failed",
        }
    }
}

/// How far a fetch is at one store.
#[derive(Debug, PartialEq, Eq, Structural, Clone, Copy)]
pub enum StorePhase {
    Pending,
    Fetching,
    Done,
}

impl StorePhase {
    pub open spec fn label(self) -> Seq<char> {
        match self {
            StorePhase::Pending => "pending"@,
            StorePhase::Fetching => "fetching"@,
            StorePhase::Done => "done"@,
        }
    }

    pub fn name(self) -> (name: &'static str)
        ensures
            name@ == self.label(),
    {
        match self {
            StorePhase::Pending => "pending",
            StorePhase::Fetching => "fetching",
            StorePhase::Done => "done",
        }
    }
}

/// A fetch at one store.
pub struct StoreStatus {
    pub store: String,
    pub phase: StorePhase,
    /// Listings found at the store so far.
    pub cards_found: usize,
}

pub struct Job {
    pub kind: JobKind,
    pub status: JobStatus,
    /// Seconds on a clock that does not go back.
    pub created_at: u64,
    /// Fetch: pairs of a card and a store that are done.
    pub cards_done: usize,
    pub cards_total: usize,
    /// Fetch: what is being searched.
    pub current_store: String,
    pub current_card: String,
    /// Wizard: tolerance levels completed in the current phase.
    pub tolerance_done: usize,
    pub tolerance_total: usize,
    /// Wizard: store combinations to evaluate.
    pub combos_total: u64,
    /// Wizard: the heuristic result while the exhaustive search runs.
    pub partial_result: Option<WizardResultData>,
    pub result: Option<JobResult>,
    pub error: Option<String>,
    /// Fetch: the stores.
    pub stores: Vec<StoreStatus>,
}

/// A job as the API returns it.
pub struct JobResponse<'a> {
    pub status: &'static str,
    pub kind: &'static str,
    pub cards_done: usize,
    pub cards_total: usize,
    pub current_store: &'a str,
    pub current_card: &'a str,
    pub tolerance_done: usize,
    pub tolerance_total: usize,
    pub combos_done: u64,
    pub combos_total: u64,
    pub partial_result: &'a Option<WizardResultData>,
    pub result: &'a Option<JobResult>,
    pub error: &'a Option<String>,
    /// Present on fetch jobs.
    pub store_statuses: Option<&'a Vec<StoreStatus>>,
}

/// The stores before a fetch.
pub open spec fn untouched(stores: Seq<StoreStatus>, names: Seq<Seq<char>>) -> bool {
    &&& stores.len() == names.len()
    &&& forall|i: int|
        0 <= i < stores.len() ==> (#[trigger] stores[i]).store@ == names[i] && stores[i].phase
            == StorePhase::Pending && stores[i].cards_found == 0
}

/// A fetch of so many cards at the stores that waits to run.
pub open spec fn fresh_fetch(job: Job, now: u64, names: Seq<Seq<char>>, cards: int) -> bool {
    &&& job.kind == JobKind::Fetch
    &&& job.status == JobStatus::Pending
    &&& job.created_at == now
    &&& job.cards_done == 0
    &&& job.cards_total == cards * names.len()
    &&& job.current_store@.len() == 0
    &&& job.current_card@.len() == 0
    &&& job.tolerance_done == 0
    &&& job.tolerance_total == 0
    &&& job.combos_total == 0
    &&& job.partial_result is None
    &&& job.result is None
    &&& job.error is None
    &&& untouched(job.stores@, names)
}

/// A wizard job over so many tolerance levels and combinations that waits to run.
pub open spec fn fresh_wizard(
    job: Job,
    now: u64,
    tolerance_total: int,
    combos_total: int,
) -> bool {
    &&& job.kind == JobKind::Wizard
    &&& job.status == JobStatus::Pending
    &&& job.created_at == now
    &&& job.cards_done == 0
    &&& job.cards_total == 0
    &&& job.current_store@.len() == 0
    &&& job.current_card@.len() == 0
    &&& job.tolerance_done == 0
    &&& job.tolerance_total == tolerance_total
    &&& job.combos_total == combos_total
    &&& job.partial_result is None
    &&& job.result is None
    &&& job.error is None
    &&& job.stores@.len() == 0
}

impl Job {
    /// A fetch of so many cards at the stores.
    pub fn fetch(now: u64, names: &Vec<String>, cards: usize) -> (job: Self)
        requires
            cards * names@.len() <= usize::MAX,
        ensures
            fresh_fetch(job, now, texts(names@), cards as int),
    {
        let mut stores: Vec<StoreStatus> = Vec::new();
        let mut i: usize = 0;
        while i < names.len()
            invariant
                i <= names@.len(),
                stores@.len() == i,
                forall|k: int|
                    0 <= k < i ==> (#[trigger] stores@[k]).store@ == names@[k]@ && stores@[k].phase
                        == StorePhase::Pending && stores@[k].cards_found == 0,
            decreases names@.len() - i,
        {
            stores.push(
                StoreStatus {
                    store: names[i].clone(),
                    phase: StorePhase::Pending,
                    cards_found: 0,
                },
            );
            i += 1;
        }
        Job {
            kind: JobKind::Fetch,
            status: JobStatus::Pending,
            created_at: now,
            cards_done: 0,
            cards_total: cards * names.len(),
            current_store: String::new(),
            current_card: String::new(),
            tolerance_done: 0,
            tolerance_total: 0,
            combos_total: 0,
            partial_result: None,
            result: None,
            error: None,
            stores,
        }
    }

    /// A wizard job over so many tolerance levels and combinations.
    pub fn wizard(now: u64, tolerance_total: usize, combos_total: u64) -> (job: Self)
        ensures
            fresh_wizard(job, now, tolerance_total as int, combos_total as int),
    {
        Job {
            kind: JobKind::Wizard,
            status: JobStatus::Pending,
            created_at: now,
            cards_done: 0,
            cards_total: 0,
            current_store: String::new(),
            current_card: String::new(),
            tolerance_done: 0,
            tolerance_total,
            combos_total,
            partial_result: None,
            result: None,
            error: None,
            stores: Vec::new(),
        }
    }

    /// The job runs.
    pub fn start(&mut self)
        ensures
            *final(self) == (Job { status: JobStatus::Running, ..*old(self) }),
    {
        self.status = JobStatus::Running;
    }

    /// A store turns to a card.
    pub fn begin_card(&mut self, store: usize, card: &str)
        requires
            store < old(self).stores@.len(),
        ensures
            final(self).current_store@ == old(self).stores@[store as int].store@,
            final(self).current_card@ == card@,
            final(self).stores@ == old(self).stores@.update(
                store as int,
                StoreStatus { phase: StorePhase::Fetching, ..old(self).stores@[store as int] },
            ),
            *final(self) == (Job {
                current_store: final(self).current_store,
                current_card: final(self).current_card,
                stores: final(self).stores,
                ..*old(self)
            }),
    {
        self.current_store = self.stores[store].store.clone();
        self.current_card = card.to_owned();
        self.stores[store].phase = StorePhase::Fetching;
        assert(self.stores@ =~= old(self).stores@.update(
            store as int,
            StoreStatus { phase: StorePhase::Fetching, ..old(self).stores@[store as int] },
        ));
    }

    /// A store is done with a card that it had so many listings of, and with all
    /// cards if it was the last.
    pub fn end_card(&mut self, store: usize, found: usize, last: bool)
        requires
            store < old(self).stores@.len(),
            old(self).cards_done < usize::MAX,
            old(self).stores@[store as int].cards_found + found <= usize::MAX,
        ensures
            final(self).cards_done == old(self).cards_done + 1,
            final(self).stores@ == old(self).stores@.update(
                store as int,
                StoreStatus {
                    cards_found: (old(self).stores@[store as int].cards_found + found) as usize,
                    phase: if last {
                        StorePhase::Done
                    } else {
                        old(self).stores@[store as int].phase
                    },
                    ..old(self).stores@[store as int]
                },
            ),
            *final(self) == (Job {
                cards_done: final(self).cards_done,
                stores: final(self).stores,
                ..*old(self)
            }),
    {
        self.cards_done = self.cards_done + 1;
        let total: usize = self.stores[store].cards_found + found;
        self.stores[store].cards_found = total;
        if last {
            self.stores[store].phase = StorePhase::Done;
        }
        assert(self.stores@ =~= old(self).stores@.update(
            store as int,
            StoreStatus {
                cards_found: (old(self).stores@[store as int].cards_found + found) as usize,
                phase: if last {
                    StorePhase::Done
                } else {
                    old(self).stores@[store as int].phase
                },
                ..old(self).stores@[store as int]
            },
        ));
    }

    /// The fetch is done.
    pub fn finish_fetch(&mut self, data: FetchResultData)
        ensures
            *final(self) == (Job {
                status: JobStatus::Done,
                cards_done: old(self).cards_total,
                result: Some(JobResult::Fetch(data)),
                ..*old(self)
            }),
    {
        self.status = JobStatus::Done;
        self.cards_done = self.cards_total;
        self.result = Some(JobResult::Fetch(data));
    }

    /// The wizard is done with a tolerance level.
    pub fn end_tolerance(&mut self)
        requires
            old(self).tolerance_done < usize::MAX,
        ensures
            *final(self) == (Job {
                tolerance_done: (old(self).tolerance_done + 1) as usize,
                ..*old(self)
            }),
    {
        self.tolerance_done = self.tolerance_done + 1;
    }

    /// The heuristic phase is done: its result can be shown, and the levels are
    /// counted anew.
    pub fn end_heuristic(&mut self, data: WizardResultData)
        ensures
            *final(self) == (Job {
                partial_result: Some(data),
                tolerance_done: 0,
                ..*old(self)
            }),
    {
        self.partial_result = Some(data);
        self.tolerance_done = 0;
    }

    /// The wizard is done.
    pub fn finish_wizard(&mut self, data: WizardResultData)
        ensures
            *final(self) == (Job {
                status: JobStatus::Done,
                tolerance_done: old(self).tolerance_total,
                partial_result: None,
                result: Some(JobResult::Wizard(data)),
                ..*old(self)
            }),
    {
        self.status = JobStatus::Done;
        self.tolerance_done = self.tolerance_total;
        self.partial_result = None;
        self.result = Some(JobResult::Wizard(data));
    }

    /// The job failed.
    pub fn fail(&mut self, error: &str)
        ensures
            final(self).error matches Some(e) && e@ == error@,
            *final(self) == (Job {
                status: JobStatus::Failed,
                error: final(self).error,
                ..*old(self)
            }),
    {
        self.status = JobStatus::Failed;
        self.error = Some(error.to_owned());
    }

    /// The job as the API returns it, with the combinations tried so far.
    pub fn to_response(&self, combos_done: u64) -> (r: JobResponse<'_>)
        ensures
            r.status@ == self.status.label(),
            r.kind@ == self.kind.label(),
            r.cards_done == if self.kind == JobKind::Fetch {
                self.cards_done
            } else {
                0
            },
            r.cards_total == self.cards_total,
            r.current_store@ == if self.kind == JobKind::Fetch {
                self.current_store@
            } else {
                ""@
            },
            r.current_card@ == if self.kind == JobKind::Fetch {
                self.current_card@
            } else {
                ""@
            },
            r.tolerance_done == self.tolerance_done,
            r.tolerance_total == self.tolerance_total,
            r.combos_done == if self.kind == JobKind::Wizard {
                combos_done
            } else {
                0
            },
            r.combos_total == self.combos_total,
            *r.partial_result == self.partial_result,
            *r.result == self.result,
            *r.error == self.error,
            r.store_statuses == if self.kind == JobKind::Fetch {
                Some(&self.stores)
            } else {
                None
            },
    {
        let fetching: bool = self.kind == JobKind::Fetch;
        JobResponse {
            status: self.status.name(),
            kind: self.kind.name(),
            cards_done: if fetching {
                self.cards_done
            } else {
                0
            },
            cards_total: self.cards_total,
            current_store: if fetching {
                self.current_store.as_str()
            } else {
                ""
            },
            current_card: if fetching {
                self.current_card.as_str()
            } else {
                ""
            },
            tolerance_done: self.tolerance_done,
            tolerance_total: self.tolerance_total,
            combos_done: if fetching {
                0
            } else {
                combos_done
            },
            combos_total: self.combos_total,
            partial_result: &self.partial_result,
            result: &self.result,
            error: &self.error,
            store_statuses: if fetching {
                Some(&self.stores)
            } else {
                None
            },
        }
    }
}

/// A short random job ID: eight letters and digits.
pub fn new_job_id(rng: &mut StdRng) -> (id: String)
    ensures
        id@.len() == 8,
        forall|i: int| 0 <= i < id@.len() ==> is_alphanumeric(#[trigger] id@[i]),
{
    let mut id = String::new();
    let mut i: usize = 0;
    while i < 8
        invariant
            i <= 8,
            id@.len() == i,
            forall|k: int| 0 <= k < id@.len() ==> is_alphanumeric(#[trigger] id@[k]),
        decreases 8 - i,
    {
        id.push(alphanumeric(rng));
        i += 1;
    }
    id
}

/// A job under its ID.
pub struct JobSlot {
    pub id: String,
    pub job: Job,
}

impl View for JobSlot {
    type V = (Seq<char>, Job);

    open spec fn view(&self) -> (Seq<char>, Job) {
        (self.id@, self.job)
    }
}

/// The job waits or runs.
pub open spec fn unfinished(job: Job) -> bool {
    job.status == JobStatus::Pending || job.status == JobStatus::Running
}

/// The jobs of a kind that wait or run.
pub open spec fn busy(kind: JobKind) -> spec_fn((Seq<char>, Job)) -> bool {
    |slot: (Seq<char>, Job)| unfinished(slot.1) && slot.1.kind == kind
}

/// The jobs that are kept: those that wait or run, and those of the last half hour.
pub open spec fn kept(now: u64) -> spec_fn((Seq<char>, Job)) -> bool {
    |slot: (Seq<char>, Job)|
        unfinished(slot.1) || now <= slot.1.created_at || now - slot.1.created_at < JOB_TTL
}

pub open spec fn ids_of(slots: Seq<(Seq<char>, Job)>) -> Seq<Seq<char>> {
    slots.map_values(|slot: (Seq<char>, Job)| slot.0)
}

/// Too many jobs of a kind wait or run.
pub struct Busy {
    pub kind: JobKind,
    /// The IDs of those jobs.
    pub ids: Vec<String>,
}

impl Busy {
    /// The message for users.
    pub fn message(&self) -> (text: String)
        ensures
            text@ == "Server busy: "@ + decimal(self.ids@.len()) + " "@ + self.kind.label()
                + " job(s) already running. Try again in a moment."@,
    {
        let count = joined("Server busy: ", &decimal_text(self.ids.len() as u64));
        let kind = joined(&joined(&count, " "), self.kind.name());
        joined(&kind, " job(s) already running. Try again in a moment.")
    }

    /// The first of the jobs, for others to follow its progress.
    pub fn existing_job_id(&self) -> (id: String)
        ensures
            id@ == if self.ids@.len() > 0 {
                self.ids@[0]@
            } else {
                ""@
            },
    {
        if self.ids.len() > 0 {
            self.ids[0].clone()
        } else {
            "".to_owned()
        }
    }
}

/// The jobs of the server.
pub struct JobTable {
    pub jobs: Vec<JobSlot>,
}

impl View for JobTable {
    type V = Seq<(Seq<char>, Job)>;

    open spec fn view(&self) -> Seq<(Seq<char>, Job)> {
        views(self.jobs@)
    }
}

/// No more jobs of a kind wait or run than may.
pub open spec fn within_limits(slots: Seq<(Seq<char>, Job)>) -> bool {
    forall|kind: JobKind| #[trigger] slots.filter(busy(kind)).len() <= MAX_ACTIVE_JOBS
}

/// Where the job with an ID stands.
pub open spec fn slot_at(slots: Seq<(Seq<char>, Job)>, id: Seq<char>) -> Option<int>
    decreases slots.len(),
{
    if slots.len() == 0 {
        None
    } else if slots.last().0 == id {
        Some(slots.len() - 1)
    } else {
        slot_at(slots.drop_last(), id)
    }
}

impl JobTable {
    /// No jobs.
    pub fn new() -> (table: Self)
        ensures
            table@ == Seq::<(Seq<char>, Job)>::empty(),
    {
        JobTable { jobs: Vec::new() }
    }

    /// Drops finished jobs that are half an hour old, and asks whether another
    /// job of the kind may start.
    pub fn reserve_slot(&mut self, kind: JobKind, now: u64) -> (reserved: Result<(), Busy>)
        ensures
            final(self)@ == old(self)@.filter(kept(now)),
            ({
                let running = old(self)@.filter(kept(now)).filter(busy(kind));
                match reserved {
                    Ok(_) => running.len() < MAX_ACTIVE_JOBS,
                    Err(b) => running.len() >= MAX_ACTIVE_JOBS && b.kind == kind && texts(b.ids@)
                        == ids_of(running),
                }
            }),
    {
        let ghost p = kept(now);
        let keep = |slot: &JobSlot| -> (b: bool)
            ensures
                b == p(slot@),
            {
                slot.job.status == JobStatus::Pending || slot.job.status == JobStatus::Running
                    || now <= slot.job.created_at || now - slot.job.created_at < JOB_TTL
            };
        retain_rows(&mut self.jobs, keep, Ghost(p));
        let ghost all = self@;
        let ghost q = busy(kind);
        let mut ids: Vec<String> = Vec::new();
        let mut i: usize = 0;
        proof {
            lemma_filter_empty(q);
            assert(all.take(0) =~= Seq::empty());
            assert(texts(ids@) =~= ids_of(Seq::empty()));
        }
        while i < self.jobs.len()
            invariant
                all == self@,
                q == busy(kind),
                i <= self.jobs@.len(),
                texts(ids@) == ids_of(all.take(i as int).filter(q)),
            decreases self.jobs@.len() - i,
        {
            let slot = &self.jobs[i];
            let ghost before = all.take(i as int).filter(q);
            proof {
                lemma_filter_step(all, i as int, q);
                assert(all[i as int] == slot@);
            }
            let running: bool = slot.job.status == JobStatus::Pending || slot.job.status
                == JobStatus::Running;
            if running && slot.job.kind == kind {
                let ghost i0 = ids@;
                ids.push(slot.id.clone());
                proof {
                    assert(texts(ids@) =~= texts(i0).push(slot.id@));
                    assert(ids_of(before.push(slot@)) =~= ids_of(before).push(slot@.0));
                }
            }
            i += 1;
        }
        proof {
            assert(all.take(i as int) =~= all);
            assert(texts(ids@).len() == ids@.len());
        }
        if ids.len() >= MAX_ACTIVE_JOBS {
            Err(Busy { kind, ids })
        } else {
            Ok(())
        }
    }

    /// Adds a job.
    pub fn insert(&mut self, id: String, job: Job)
        ensures
            final(self)@ == old(self)@.push((id@, job)),
    {
        let slot = JobSlot { id, job };
        proof {
            lemma_views_push(self.jobs@, slot);
        }
        self.jobs.push(slot);
    }

    /// Where the job with an ID stands.
    pub fn find(&self, id: &str) -> (at: Option<usize>)
        ensures
            match at {
                Some(i) => i < self.jobs@.len() && slot_at(self@, id@) == Some(i as int),
                None => slot_at(self@, id@) is None,
            },
    {
        let ghost all = self@;
        let mut i: usize = self.jobs.len();
        assert(all.take(i as int) =~= all);
        while i > 0
            invariant
                all == self@,
                i <= self.jobs@.len(),
                slot_at(all, id@) == slot_at(all.take(i as int), id@),
            decreases i,
        {
            proof {
                let t = all.take(i as int);
                assert(t.drop_last() =~= all.take(i - 1));
                assert(t.last() == self.jobs@[i - 1]@);
            }
            i -= 1;
            if same_text(&self.jobs[i].id, id) {
                return Some(i);
            }
        }
        None
    }
}

/// What is said of an ID that no job has.
pub fn job_not_found(id: &str) -> (text: String)
    ensures
        text@ == "Job '"@ + id@ + "' not found."@,
{
    joined(&joined("Job '", id), "' not found.")
}

/// A job that was reserved a slot keeps the server within its limits: no kind
/// ever has more jobs waiting or running than may.
pub proof fn law_reserved_job_fits(
    slots: Seq<(Seq<char>, Job)>,
    now: u64,
    id: Seq<char>,
    job: Job,
)
    requires
        within_limits(slots),
        slots.filter(kept(now)).filter(busy(job.kind)).len() < MAX_ACTIVE_JOBS,
    ensures
        within_limits(slots.filter(kept(now)).push((id, job))),
{
    let rest = slots.filter(kept(now));
    assert forall|kind: JobKind| #[trigger]
        rest.push((id, job)).filter(busy(kind)).len() <= MAX_ACTIVE_JOBS by {
        lemma_filter_push(rest, (id, job), busy(kind));
        lemma_filter_twice(slots, kept(now), busy(kind));
        assert(slots.filter(busy(kind)).len() <= MAX_ACTIVE_JOBS);
    }
}

/// Dropping old jobs drops none that waits or runs.
pub proof fn law_running_jobs_stay(slots: Seq<(Seq<char>, Job)>, now: u64, kind: JobKind)
    ensures
        slots.filter(kept(now)).filter(busy(kind)) == slots.filter(busy(kind)),
{
    lemma_filter_twice(slots, kept(now), busy(kind));
}

} // verus!
