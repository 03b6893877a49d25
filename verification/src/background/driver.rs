//! Decisions of the driver of background jobs.
//!
//! The driver claims jobs for as long as it has a free slot, hands each to a worker
//! and sweeps expired leases. Claiming and sweeping are done by the caller, which
//! hands back what came of them.

use vstd::prelude::*;

use crate::crdt_kv::replica;
use crate::crdt_kv::replica::ReplicaId;

verus! {

// ---------------------------------------------------------------------------
// State
// ---------------------------------------------------------------------------
/// The state of a driver.
///
/// Each slot is free, reserved for a claim under way or taken by a running job.
/// `wakeup` tells whether the claim loop is to be woken early. Every claim is made
/// under the identity `worker_id` and asks for a lease of `lease_secs` seconds.
#[derive(Debug)]
pub struct DriverState {
    worker_id: String,
    capacity: usize,
    claiming: usize,
    running: usize,
    wakeup: bool,
    lease_secs: u64,
}

/// What a driver's state holds.
#[verifier::ext_equal]
pub struct DriverView {
    pub worker_id: Seq<char>,
    pub capacity: nat,
    pub claiming: nat,
    pub running: nat,
    pub wakeup: bool,
    pub lease_secs: u64,
}

impl View for DriverState {
    type V = DriverView;

    closed spec fn view(&self) -> DriverView {
        DriverView {
            worker_id: self.worker_id@,
            capacity: self.capacity as nat,
            claiming: self.claiming as nat,
            running: self.running as nat,
            wakeup: self.wakeup,
            lease_secs: self.lease_secs,
        }
    }
}

impl DriverView {
    /// No more slots are in use than there are, and there is at least one.
    pub open spec fn wf(self) -> bool {
        &&& self.claiming + self.running <= self.capacity
        &&& self.capacity >= 1
    }

    /// The number of free slots.
    pub open spec fn free(self) -> int {
        self.capacity - self.claiming - self.running
    }
}

/// The lease identity of a driver with the given bits.
pub open spec fn worker_id_of(bits: u128) -> Seq<char> {
    "bg-"@ + replica::uuid_text(bits)
}

/// The driver at its start.
pub open spec fn fresh(bits: u128, worker_concurrency: u32, lease_secs: u64) -> DriverView {
    DriverView {
        worker_id: worker_id_of(bits),
        capacity: if worker_concurrency == 0 {
            1
        } else {
            worker_concurrency as nat
        },
        claiming: 0,
        running: 0,
        wakeup: false,
        lease_secs,
    }
}

/// What the drain of the queue does next.
#[derive(Debug)]
pub enum DrainStep<J> {
    /// Claim the next job, under this identity and for this lease.
    Claim { worker_id: String, lease_secs: u64 },
    /// Run a job, then drain on.
    Dispatch(J),
    /// Stop: no slot is free.
    NoSlot,
    /// Stop: there is nothing to claim.
    NothingToClaim,
    /// Stop: claiming failed, and is tried again at the next tick.
    ClaimFailed(String),
}

/// What a step says.
#[verifier::ext_equal]
pub enum StepView<J> {
    Claim { worker_id: Seq<char>, lease_secs: u64 },
    Dispatch(J),
    NoSlot,
    NothingToClaim,
    ClaimFailed(Seq<char>),
}

impl<J> View for DrainStep<J> {
    type V = StepView<J>;

    open spec fn view(&self) -> StepView<J> {
        match self {
            DrainStep::Claim { worker_id, lease_secs } => StepView::Claim {
                worker_id: worker_id@,
                lease_secs: *lease_secs,
            },
            DrainStep::Dispatch(job) => StepView::Dispatch(*job),
            DrainStep::NoSlot => StepView::NoSlot,
            DrainStep::NothingToClaim => StepView::NothingToClaim,
            DrainStep::ClaimFailed(e) => StepView::ClaimFailed(e@),
        }
    }
}

/// What a sweep came to.
#[derive(Debug)]
pub enum SweepOutcome {
    /// No lease had expired.
    Nothing,
    /// This many jobs were queued again.
    Requeued(u64),
    /// Sweeping failed.
    Failed(String),
}

// ---------------------------------------------------------------------------
// Transitions
// ---------------------------------------------------------------------------
/// The state once a slot is reserved for a claim, where one is free.
pub open spec fn after_reserve(s: DriverView) -> DriverView {
    if s.free() > 0 {
        DriverView { claiming: s.claiming + 1, ..s }
    } else {
        s
    }
}

/// The state once a claim has given a job: its slot is taken by the job.
pub open spec fn after_claimed(s: DriverView) -> DriverView {
    DriverView { claiming: (s.claiming - 1) as nat, running: s.running + 1, ..s }
}

/// The state once a claim has given nothing: its slot is free.
pub open spec fn after_unclaimed(s: DriverView) -> DriverView {
    DriverView { claiming: (s.claiming - 1) as nat, ..s }
}

/// The state once a job is off its slot.
pub open spec fn after_released(s: DriverView) -> DriverView {
    DriverView { running: (s.running - 1) as nat, ..s }
}

/// The state with the claim loop to be woken.
pub open spec fn after_notified(s: DriverView) -> DriverView {
    DriverView { wakeup: true, ..s }
}

/// What came of a claim: a job, nothing, or a failure.
pub open spec fn reply_view<J>(claimed: Result<Option<J>, String>) -> Result<Option<J>, Seq<char>> {
    match claimed {
        Ok(job) => Ok(job),
        Err(e) => Err(e@),
    }
}

/// The step that starts a turn: a claim where a slot is free, else the end.
pub open spec fn claim_step<J>(s: DriverView) -> StepView<J> {
    if s.free() > 0 {
        StepView::Claim { worker_id: s.worker_id, lease_secs: s.lease_secs }
    } else {
        StepView::NoSlot
    }
}

/// The step that follows a claim: the job is run, or the drain ends.
pub open spec fn reply_step<J>(reply: Result<Option<J>, Seq<char>>) -> StepView<J> {
    match reply {
        Ok(Some(job)) => StepView::Dispatch(job),
        Ok(None) => StepView::NothingToClaim,
        Err(e) => StepView::ClaimFailed(e),
    }
}

/// The state after a claim: its slot is taken by the job that it gave, or free.
pub open spec fn after_reply<J>(s: DriverView, reply: Result<Option<J>, Seq<char>>) -> DriverView {
    match reply {
        Ok(Some(_)) => after_claimed(s),
        _ => after_unclaimed(s),
    }
}

/// The state once a job has returned: its slot is free, and the claim loop is to be
/// woken so that the slot is filled at once.
pub open spec fn after_finished(s: DriverView) -> DriverView {
    after_notified(after_released(s))
}

/// The state after a sweep that queued so many jobs again, or failed.
pub open spec fn after_sweep(s: DriverView, requeued: Option<u64>) -> DriverView {
    match requeued {
        Some(n) => if n == 0 {
            s
        } else {
            after_notified(s)
        },
        None => s,
    }
}

/// The number of jobs that a sweep is reported to have queued again; `None` if it failed.
pub open spec fn reported(outcome: SweepOutcome) -> Option<u64> {
    match outcome {
        SweepOutcome::Nothing => Some(0),
        SweepOutcome::Requeued(n) => Some(n),
        SweepOutcome::Failed(_) => None,
    }
}

impl DriverState {
    /// A driver with a new lease identity.
    pub fn new(worker_concurrency: u32, lease_secs: u64) -> (driver: DriverState)
        ensures
            exists|bits: u128|
                (bits >> 76) & 0xf == 7 && driver@ == #[trigger] fresh(
                    bits,
                    worker_concurrency,
                    lease_secs,
                ),
            driver@.wf(),
            driver@.capacity - driver@.claiming - driver@.running == if worker_concurrency == 0 {
                1int
            } else {
                worker_concurrency as int
            },
    {
        let id = ReplicaId::new();
        let driver = DriverState::with_identity(id.bits, worker_concurrency, lease_secs);
        assert(driver@ == fresh(id.bits, worker_concurrency, lease_secs));
        driver
    }

    /// A driver with the given bits as its lease identity. There is a slot even if a
    /// concurrency of zero is configured.
    pub fn with_identity(bits: u128, worker_concurrency: u32, lease_secs: u64) -> (driver:
        DriverState)
        ensures
            driver@ == fresh(bits, worker_concurrency, lease_secs),
            driver@.wf(),
            driver@.capacity - driver@.claiming - driver@.running == if worker_concurrency == 0 {
                1int
            } else {
                worker_concurrency as int
            },
    {
        let mut worker_id: String = "bg-".to_owned();
        worker_id.append(ReplicaId { bits }.to_string().as_str());
        let capacity: usize = if worker_concurrency == 0 {
            1
        } else {
            worker_concurrency as usize
        };
        DriverState { worker_id, capacity, claiming: 0, running: 0, wakeup: false, lease_secs }
    }

    /// The lease identity.
    pub fn worker_id(&self) -> (id: &str)
        ensures
            id@ == self@.worker_id,
    {
        self.worker_id.as_str()
    }

    /// The number of slots that are reserved for a claim under way.
    pub fn claiming(&self) -> (n: usize)
        ensures
            n == self@.claiming,
    {
        self.claiming
    }

    /// The number of jobs that run.
    pub fn running(&self) -> (n: usize)
        ensures
            n == self@.running,
    {
        self.running
    }

    /// Asks for the claim loop to be woken early.
    pub fn notify_claim(&mut self)
        ensures
            final(self)@ == after_notified(old(self)@),
    {
        self.wakeup = true;
    }

    /// Tells whether the claim loop is to be woken, once for all requests so far.
    pub fn take_wakeup(&mut self) -> (wake: bool)
        ensures
            wake == old(self)@.wakeup,
            final(self)@ == (DriverView { wakeup: false, ..old(self)@ }),
            final(self)@ == after_event(old(self)@, DriverEvent::WakeupTaken),
    {
        let wake: bool = self.wakeup;
        self.wakeup = false;
        wake
    }

    /// Starts a turn of the drain. A slot is reserved before the claim, so that a
    /// claimed job always has one to run in.
    pub fn begin_claim<J>(&mut self) -> (step: DrainStep<J>)
        requires
            old(self)@.wf(),
        ensures
            final(self)@ == after_reserve(old(self)@),
            final(self)@.wf(),
            step@ == claim_step::<J>(old(self)@),
    {
        if self.capacity - self.claiming - self.running > 0 {
            self.claiming = self.claiming + 1;
            DrainStep::Claim { worker_id: self.worker_id.clone(), lease_secs: self.lease_secs }
        } else {
            DrainStep::NoSlot
        }
    }

    /// Decides what follows a claim.
    pub fn claim_ended<J>(&mut self, claimed: Result<Option<J>, String>) -> (step: DrainStep<J>)
        requires
            old(self)@.wf(),
            old(self)@.claiming > 0,
        ensures
            final(self)@ == after_reply(old(self)@, reply_view(claimed)),
            final(self)@.wf(),
            step@ == reply_step(reply_view(claimed)),
    {
        self.claiming = self.claiming - 1;
        match claimed {
            Ok(Some(job)) => {
                self.running = self.running + 1;
                DrainStep::Dispatch(job)
            },
            Ok(None) => DrainStep::NothingToClaim,
            Err(e) => DrainStep::ClaimFailed(e),
        }
    }

    /// Takes a job that has returned off its slot, and asks for the claim loop to be
    /// woken.
    pub fn job_finished(&mut self)
        requires
            old(self)@.wf(),
            old(self)@.running > 0,
        ensures
            final(self)@ == after_finished(old(self)@),
            final(self)@.wf(),
    {
        self.release();
        self.notify_claim();
    }

    /// Takes a job off its slot. This alone is what happens to a job that has
    /// panicked: the freed slot waits for the next tick.
    pub fn release(&mut self)
        requires
            old(self)@.wf(),
            old(self)@.running > 0,
        ensures
            final(self)@ == after_released(old(self)@),
            final(self)@.wf(),
            final(self)@.free() == old(self)@.free() + 1,
    {
        self.running = self.running - 1;
    }

    /// Decides what follows a sweep: jobs that were queued again are claimed without
    /// waiting for the next tick.
    pub fn swept(&mut self, requeued: Result<u64, String>) -> (outcome: SweepOutcome)
        ensures
            match requeued {
                Ok(n) => if n == 0 {
                    outcome is Nothing && final(self)@ == old(self)@
                } else {
                    outcome == SweepOutcome::Requeued(n) && final(self)@ == after_notified(
                        old(self)@,
                    )
                },
                Err(e) => outcome == SweepOutcome::Failed(e) && final(self)@ == old(self)@,
            },
            final(self)@ == after_sweep(
                old(self)@,
                match requeued {
                    Ok(n) => Some(n),
                    Err(_) => None,
                },
            ),
            reported(outcome) == match requeued {
                Ok(n) => Some(n),
                Err(_) => None,
            },
            outcome matches SweepOutcome::Failed(e) ==> requeued == Err::<u64, String>(e),
            final(self)@.wakeup <==> old(self)@.wakeup || (requeued matches Ok(n) && n > 0),
            final(self)@.capacity == old(self)@.capacity,
            final(self)@.claiming == old(self)@.claiming,
            final(self)@.running == old(self)@.running,
    {
        match requeued {
            Ok(n) => {
                if n == 0 {
                    SweepOutcome::Nothing
                } else {
                    self.notify_claim();
                    SweepOutcome::Requeued(n)
                }
            },
            Err(e) => SweepOutcome::Failed(e),
        }
    }
}

// ---------------------------------------------------------------------------
// Laws
// ---------------------------------------------------------------------------
/// Something that happens to a driver.
pub enum DriverEvent {
    Reserve,
    Claimed,
    Unclaimed,
    Released,
    Finished,
    Notified,
    WakeupTaken,
}

/// The event can happen.
pub open spec fn possible(s: DriverView, event: DriverEvent) -> bool {
    match event {
        DriverEvent::Claimed | DriverEvent::Unclaimed => s.claiming > 0,
        DriverEvent::Released | DriverEvent::Finished => s.running > 0,
        _ => true,
    }
}

/// The state after an event.
pub open spec fn after_event(s: DriverView, event: DriverEvent) -> DriverView {
    match event {
        DriverEvent::Reserve => after_reserve(s),
        DriverEvent::Claimed => after_claimed(s),
        DriverEvent::Unclaimed => after_unclaimed(s),
        DriverEvent::Released => after_released(s),
        DriverEvent::Finished => after_finished(s),
        DriverEvent::Notified => after_notified(s),
        DriverEvent::WakeupTaken => DriverView { wakeup: false, ..s },
    }
}

/// The state after a history of events.
pub open spec fn after_events(s: DriverView, events: Seq<DriverEvent>) -> DriverView
    decreases events.len(),
{
    if events.len() == 0 {
        s
    } else {
        after_event(after_events(s, events.drop_last()), events.last())
    }
}

/// Every event of a history can happen when it does.
pub open spec fn possible_history(s: DriverView, events: Seq<DriverEvent>) -> bool {
    forall|i: int|
        0 <= i < events.len() ==> possible(
            after_events(s, #[trigger] events.subrange(0, i)),
            events[i],
        )
}

/// No more jobs ever run at once than the driver was configured for, whatever
/// happens to it, and its identity, its
/// capacity and its lease stay.
pub proof fn law_concurrency_is_capped(
    bits: u128,
    worker_concurrency: u32,
    lease_secs: u64,
    events: Seq<DriverEvent>,
)
    requires
        possible_history(fresh(bits, worker_concurrency, lease_secs), events),
    ensures
        ({
            let s = after_events(fresh(bits, worker_concurrency, lease_secs), events);
            &&& s.wf()
            &&& s.running <= if worker_concurrency == 0 {
                1
            } else {
                worker_concurrency as nat
            }
            &&& s.capacity == fresh(bits, worker_concurrency, lease_secs).capacity
            &&& s.worker_id == worker_id_of(bits)
            &&& s.lease_secs == lease_secs
        }),
    decreases events.len(),
{
    let start = fresh(bits, worker_concurrency, lease_secs);
    if events.len() > 0 {
        let before = events.drop_last();
        assert(events.subrange(0, events.len() - 1) =~= before);
        assert forall|i: int| 0 <= i < before.len() implies possible(
            after_events(start, #[trigger] before.subrange(0, i)),
            before[i],
        ) by {
            assert(before.subrange(0, i) =~= events.subrange(0, i));
        }
        law_concurrency_is_capped(bits, worker_concurrency, lease_secs, before);
    }
}

/// The state after a drain of a queue that has `jobs` jobs to claim.
pub open spec fn drained(s: DriverView, jobs: nat) -> DriverView
    decreases jobs,
{
    let reserved = after_reserve(s);
    if s.free() <= 0 {
        s
    } else if jobs == 0 {
        after_unclaimed(reserved)
    } else {
        drained(after_claimed(reserved), (jobs - 1) as nat)
    }
}

/// A drain dispatches as many jobs as there are, up to the free slots, and keeps no
/// slot reserved.
pub proof fn law_drain_fills_free_slots(s: DriverView, jobs: nat)
    requires
        s.wf(),
    ensures
        drained(s, jobs) == (DriverView {
            running: s.running + if jobs <= s.free() {
                jobs
            } else {
                s.free() as nat
            },
            ..s
        }),
        drained(s, jobs).wf(),
    decreases jobs,
{
    if s.free() > 0 && jobs > 0 {
        law_drain_fills_free_slots(after_claimed(after_reserve(s)), (jobs - 1) as nat);
    }
}

/// A fresh driver has exactly as many free slots as it is configured for, and one where
/// none is configured. Drained against a queue of `jobs` jobs it runs them all, or as
/// many as there are slots, and holds no slot back.
pub proof fn law_configured_slots_are_filled(
    bits: u128,
    worker_concurrency: u32,
    lease_secs: u64,
    jobs: nat,
)
    ensures
        ({
            let s = fresh(bits, worker_concurrency, lease_secs);
            let t = drained(s, jobs);
            &&& worker_concurrency >= 1 ==> s.capacity - s.claiming - s.running
                == worker_concurrency
            &&& worker_concurrency == 0 ==> s.capacity - s.claiming - s.running == 1
            &&& jobs >= worker_concurrency && worker_concurrency >= 1 ==> t.running
                == worker_concurrency
            &&& jobs < worker_concurrency ==> t.running == jobs
            &&& worker_concurrency == 0 && jobs >= 1 ==> t.running == 1
            &&& jobs == 0 ==> t.running == 0
            &&& t.claiming == 0
            &&& !s.wakeup && !t.wakeup
            &&& t.lease_secs == lease_secs
        }),
{
    law_drain_fills_free_slots(fresh(bits, worker_concurrency, lease_secs), jobs);
}

/// A turn claims exactly where fewer slots are in use than there are. The claim takes
/// one slot, which stays taken if it gives a job and is free again if it gives none.
pub proof fn law_claim_takes_one_slot<J>(
    s: DriverView,
    reply: Result<Option<J>, Seq<char>>,
)
    requires
        s.claiming + s.running <= s.capacity,
    ensures
        s.claiming + s.running == s.capacity ==> claim_step::<J>(s) == StepView::<J>::NoSlot
            && after_reserve(s) == s,
        s.claiming + s.running < s.capacity ==> {
            let reserved = after_reserve(s);
            let t = after_reply(reserved, reply);
            &&& claim_step::<J>(s) == (StepView::<J>::Claim {
                worker_id: s.worker_id,
                lease_secs: s.lease_secs,
            })
            &&& reserved.claiming == s.claiming + 1
            &&& reserved.running == s.running
            &&& t.claiming == s.claiming
            &&& t.running == s.running + (if reply matches Ok(Some(_)) {
                1int
            } else {
                0
            })
            &&& t.capacity == s.capacity
            &&& t.wakeup == s.wakeup
        },
{
}

/// A turn of a drain: the state that it finds, whatever has happened to the driver in
/// the meantime, and what the queue answers if it is asked.
pub struct Turn<J> {
    pub found: DriverView,
    pub reply: Result<Option<J>, Seq<char>>,
}

/// The drain goes on after the turn: a job was claimed.
pub open spec fn goes_on<J>(turn: Turn<J>) -> bool {
    claim_step::<J>(turn.found) is Claim && reply_step(turn.reply) is Dispatch
}

/// The claims that a drain makes, each with its identity and its lease.
pub open spec fn claims<J>(turns: Seq<Turn<J>>) -> Seq<StepView<J>>
    decreases turns.len(),
{
    if turns.len() == 0 || claim_step::<J>(turns[0].found) !is Claim {
        Seq::empty()
    } else if goes_on(turns[0]) {
        seq![claim_step(turns[0].found)] + claims(turns.skip(1))
    } else {
        seq![claim_step(turns[0].found)]
    }
}

/// The jobs that a drain runs.
pub open spec fn dispatches<J>(turns: Seq<Turn<J>>) -> Seq<J>
    decreases turns.len(),
{
    if turns.len() == 0 || !goes_on(turns[0]) {
        Seq::empty()
    } else {
        seq![reply_step(turns[0].reply)->Dispatch_0] + dispatches(turns.skip(1))
    }
}

/// How a drain ends, if it ends within these turns.
pub open spec fn drain_end<J>(turns: Seq<Turn<J>>) -> Option<StepView<J>>
    decreases turns.len(),
{
    if turns.len() == 0 {
        None
    } else if goes_on(turns[0]) {
        drain_end(turns.skip(1))
    } else if claim_step::<J>(turns[0].found) is Claim {
        Some(reply_step(turns[0].reply))
    } else {
        Some(claim_step(turns[0].found))
    }
}

/// A drain claims only where a slot is free, and always under the identity and for
/// the lease of the driver. It runs every job that it is given, once and in the order
/// in which they were given. It ends with the first turn, here number `last`, that
/// finds no free slot, no job or a failure, and makes no claim after that.
pub proof fn law_drain_runs_what_it_claims<J>(turns: Seq<Turn<J>>, last: int)
    requires
        0 <= last <= turns.len(),
        forall|i: int|
            0 <= i < last ==> (#[trigger] turns[i]).found.free() > 0 && turns[i].reply matches Ok(
                Some(_),
            ),
        last < turns.len() ==> turns[last].found.free() <= 0 || !(turns[last].reply matches Ok(
            Some(_),
        )),
    ensures
        dispatches(turns) == Seq::new(last as nat, |i: int| turns[i].reply->Ok_0->0),
        claims(turns) == Seq::new(
            if last < turns.len() && turns[last].found.free() > 0 {
                last as nat + 1
            } else {
                last as nat
            },
            |i: int|
                StepView::<J>::Claim {
                    worker_id: turns[i].found.worker_id,
                    lease_secs: turns[i].found.lease_secs,
                },
        ),
        drain_end(turns) == if last == turns.len() {
            None
        } else if turns[last].found.free() <= 0 {
            Some(StepView::<J>::NoSlot)
        } else {
            Some(
                match turns[last].reply {
                    Err(e) => StepView::ClaimFailed(e),
                    _ => StepView::NothingToClaim,
                },
            )
        },
    decreases last,
{
    if last > 0 {
        let rest = turns.skip(1);
        assert forall|i: int| 0 <= i < last - 1 implies (#[trigger] rest[i]).found.free() > 0
            && rest[i].reply matches Ok(Some(_)) by {
            assert(rest[i] == turns[i + 1]);
        }
        law_drain_runs_what_it_claims(rest, last - 1);
        assert(turns[0].found.free() > 0);
        assert(goes_on(turns[0]));
        assert(dispatches(turns) =~= Seq::new(last as nat, |i: int| turns[i].reply->Ok_0->0));
    }
    assert(claims(turns) =~= Seq::new(
        if last < turns.len() && turns[last].found.free() > 0 {
            last as nat + 1
        } else {
            last as nat
        },
        |i: int|
            StepView::<J>::Claim {
                worker_id: turns[i].found.worker_id,
                lease_secs: turns[i].found.lease_secs,
            },
    ));
}

/// A job that returns leaves a free slot and a pending wakeup, so that the claim loop
/// fills the slot without waiting for a tick. One that panics leaves the slot free and
/// the wakeup as it was.
pub proof fn law_finished_job_wakes_the_claim_loop(s: DriverView)
    requires
        s.wf(),
        s.running > 0,
    ensures
        after_finished(s).wf(),
        after_finished(s).free() == s.free() + 1,
        after_finished(s).free() > 0,
        after_finished(s).wakeup,
        after_released(s).free() == s.free() + 1,
        after_released(s).wakeup == s.wakeup,
{
}

/// A sweep wakes the claim loop exactly where it queued a job again, and never takes back a
/// wakeup that is pending. It touches no slot, and neither does waking.
pub proof fn law_sweep_wakes_for_requeued_jobs(s: DriverView, requeued: Option<u64>)
    ensures
        ({
            let t = after_sweep(s, requeued);
            &&& t.wakeup <==> s.wakeup || (requeued matches Some(n) && n > 0)
            &&& t.capacity == s.capacity && t.claiming == s.claiming && t.running == s.running
            &&& t.worker_id == s.worker_id && t.lease_secs == s.lease_secs
            &&& after_notified(s).wakeup
            &&& after_notified(s).running == s.running && after_notified(s).claiming == s.claiming
        }),
{
}

/// A sweep is reported as a failure only where it failed, and else with the number of jobs
/// that it queued again; that none was is not reported as work.
pub proof fn law_sweep_is_reported(outcome: SweepOutcome, n: u64)
    requires
        reported(outcome) == Some(n),
    ensures
        n == 0 ==> !(outcome is Failed) && (outcome matches SweepOutcome::Requeued(m) ==> m == 0),
        n > 0 ==> (outcome matches SweepOutcome::Requeued(m) && m == n),
{
}

/// A wakeup is taken once for all requests before it, and asked for again by the next. To
/// take it touches no slot.
pub proof fn law_wakeup_is_taken_once(s: DriverView)
    ensures
        ({
            let t = after_event(s, DriverEvent::WakeupTaken);
            &&& !t.wakeup
            &&& t.capacity == s.capacity && t.claiming == s.claiming && t.running == s.running
            &&& t.worker_id == s.worker_id && t.lease_secs == s.lease_secs
            &&& after_event(after_notified(after_notified(s)), DriverEvent::WakeupTaken) == t
            &&& after_event(t, DriverEvent::Notified).wakeup
        }),
{
}

/// A claim that gives a job runs that job, one that gives none ends the drain, and one that
/// fails ends it with what went wrong.
pub proof fn law_reply_decides_the_step<J>(reply: Result<Option<J>, Seq<char>>)
    ensures
        match reply {
            Ok(Some(job)) => reply_step(reply) == StepView::Dispatch(job),
            Ok(None) => reply_step(reply) is NothingToClaim,
            Err(e) => reply_step(reply) == StepView::<J>::ClaimFailed(e),
        },
{
}

/// A job that ends, however it does, makes room for exactly one more.
pub proof fn law_finished_job_makes_room(s: DriverView, jobs: nat)
    requires
        s.wf(),
        s.running > 0,
        s.free() == 0,
        jobs > 0,
    ensures
        drained(after_released(s), jobs) == s,
        drained(after_finished(s), jobs) == after_notified(s),
{
    law_drain_fills_free_slots(after_released(s), jobs);
    law_drain_fills_free_slots(after_finished(s), jobs);
}

} // verus!
