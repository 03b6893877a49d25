//! Decisions of the supervisor of a periodic task.
//!
//! A periodic task calls back whenever an interval elapses or it is woken early. A
//! panic restarts its loop after a short backoff; the task ends once its owner is
//! gone. The caller waits, calls back and catches panics; what is done next is
//! decided here.

use vstd::prelude::*;

verus! {

/// How long to wait before the loop is restarted after a panic.
pub const PANIC_RESTART_BACKOFF_SECS: u64 = 1;

/// Where a periodic task stands.
#[derive(Debug, Clone, Copy, PartialEq, Eq, Structural)]
pub enum PeriodicState {
    /// The interval is being started.
    Starting,
    /// The interval runs, and nothing has woken the task yet.
    Waiting,
    /// The callback runs.
    Ticking,
    /// The loop has panicked and waits before it starts again.
    BackingOff,
    /// The task is over.
    Ended,
}

/// What wakes a periodic task.
#[derive(Debug, Clone, Copy, PartialEq, Eq, Structural)]
pub enum WakeCause {
    /// The interval has elapsed.
    Interval,
    /// The wakeup was notified.
    Notified,
}

/// Something that happens to a periodic task.
#[derive(Debug)]
pub enum PeriodicEvent {
    /// The interval has started.
    Started,
    /// The task was woken. The owner is still there, or it is not.
    Woken { cause: WakeCause, owner_alive: bool },
    /// The callback has returned.
    TickReturned,
    /// The loop has panicked, with a message.
    Panicked(String),
    /// The backoff is over.
    BackoffElapsed,
}

/// What a periodic task does next.
#[derive(Debug)]
pub enum PeriodicAction {
    /// Start the interval. Its first tick comes at once, and is consumed if
    /// `skip_first_tick` is set.
    StartInterval { skip_first_tick: bool },
    /// Wait for the interval or the wakeup.
    Wait,
    /// Call back.
    Tick,
    /// Report the message and wait.
    BackOff { message: String, backoff_secs: u64 },
    /// End the task.
    End,
}

/// The event can happen in the state. The loop can panic wherever it runs.
pub open spec fn possible(state: PeriodicState, event: PeriodicEvent) -> bool {
    match event {
        PeriodicEvent::Started => state is Starting,
        PeriodicEvent::Woken { .. } => state is Waiting,
        PeriodicEvent::TickReturned => state is Ticking,
        PeriodicEvent::Panicked(_) => state is Starting || state is Waiting || state is Ticking,
        PeriodicEvent::BackoffElapsed => state is BackingOff,
    }
}

/// The state after an event.
pub open spec fn next_state(event: PeriodicEvent) -> PeriodicState {
    match event {
        PeriodicEvent::Started => PeriodicState::Waiting,
        PeriodicEvent::Woken { owner_alive: true, .. } => PeriodicState::Ticking,
        PeriodicEvent::Woken { owner_alive: false, .. } => PeriodicState::Ended,
        PeriodicEvent::TickReturned => PeriodicState::Waiting,
        PeriodicEvent::Panicked(_) => PeriodicState::BackingOff,
        PeriodicEvent::BackoffElapsed => PeriodicState::Starting,
    }
}

/// What follows an event. A restarted loop calls back at once: the backoff has
/// elapsed already.
pub open spec fn next_action(event: PeriodicEvent) -> PeriodicAction {
    match event {
        PeriodicEvent::Started => PeriodicAction::Wait,
        PeriodicEvent::Woken { owner_alive: true, .. } => PeriodicAction::Tick,
        PeriodicEvent::Woken { owner_alive: false, .. } => PeriodicAction::End,
        PeriodicEvent::TickReturned => PeriodicAction::Wait,
        PeriodicEvent::Panicked(message) => PeriodicAction::BackOff {
            message,
            backoff_secs: PANIC_RESTART_BACKOFF_SECS,
        },
        PeriodicEvent::BackoffElapsed => PeriodicAction::StartInterval { skip_first_tick: false },
    }
}

/// The first action of a periodic task.
pub open spec fn first_action() -> PeriodicAction {
    PeriodicAction::StartInterval { skip_first_tick: true }
}

/// Starts a periodic task. Its first run waits a full interval: whatever was pending
/// at startup has been taken care of.
pub fn start_periodic() -> (started: (PeriodicState, PeriodicAction))
    ensures
        started == (PeriodicState::Starting, first_action()),
{
    (PeriodicState::Starting, PeriodicAction::StartInterval { skip_first_tick: true })
}

/// Decides what follows an event.
pub fn periodic_step(state: PeriodicState, event: PeriodicEvent) -> (step: (
    PeriodicState,
    PeriodicAction,
))
    requires
        possible(state, event),
    ensures
        step == (next_state(event), next_action(event)),
{
    match event {
        PeriodicEvent::Started => (PeriodicState::Waiting, PeriodicAction::Wait),
        PeriodicEvent::Woken { owner_alive, .. } => {
            if owner_alive {
                (PeriodicState::Ticking, PeriodicAction::Tick)
            } else {
                (PeriodicState::Ended, PeriodicAction::End)
            }
        },
        PeriodicEvent::TickReturned => (PeriodicState::Waiting, PeriodicAction::Wait),
        PeriodicEvent::Panicked(message) => (
            PeriodicState::BackingOff,
            PeriodicAction::BackOff { message, backoff_secs: PANIC_RESTART_BACKOFF_SECS },
        ),
        PeriodicEvent::BackoffElapsed => (
            PeriodicState::Starting,
            PeriodicAction::StartInterval { skip_first_tick: false },
        ),
    }
}

/// The message of a panic, from its payload as a string slice or as a string.
pub open spec fn message_of(slice: Option<Seq<char>>, string: Option<Seq<char>>) -> Seq<char> {
    match (slice, string) {
        (Some(s), _) => s,
        (None, Some(s)) => s,
        (None, None) => "(non-string panic)"@,
    }
}

/// The message of a panic, from its payload as a string slice or as a string.
pub fn panic_message(slice: Option<&str>, string: Option<&String>) -> (message: String)
    ensures
        message@ == message_of(
            match slice {
                Some(s) => Some(s@),
                None => None,
            },
            match string {
                Some(s) => Some(s@),
                None => None,
            },
        ),
{
    if let Some(s) = slice {
        return s.to_owned();
    }
    match string {
        Some(s) => s.clone(),
        None => "(non-string panic)".to_owned(),
    }
}

// ---------------------------------------------------------------------------
// Laws
// ---------------------------------------------------------------------------
/// The state after a history of events.
pub open spec fn state_after(events: Seq<PeriodicEvent>) -> PeriodicState {
    if events.len() == 0 {
        PeriodicState::Starting
    } else {
        next_state(events.last())
    }
}

/// The actions of a history: the first one, then one for each event.
pub open spec fn actions_of(events: Seq<PeriodicEvent>) -> Seq<PeriodicAction>
    decreases events.len(),
{
    if events.len() == 0 {
        seq![first_action()]
    } else {
        actions_of(events.drop_last()).push(next_action(events.last()))
    }
}

/// Every event of a history can happen when it does.
pub open spec fn possible_history(events: Seq<PeriodicEvent>) -> bool {
    forall|i: int|
        0 <= i < events.len() ==> possible(
            state_after(#[trigger] events.subrange(0, i)),
            events[i],
        )
}

/// The number of calls back.
pub open spec fn ticks(actions: Seq<PeriodicAction>) -> nat
    decreases actions.len(),
{
    if actions.len() == 0 {
        0
    } else {
        ticks(actions.drop_last()) + if actions.last() is Tick {
            1nat
        } else {
            0nat
        }
    }
}

/// The task is woken, and its owner is there or not.
pub open spec fn is_wake(event: PeriodicEvent, with_owner: bool) -> bool {
    event matches PeriodicEvent::Woken { owner_alive, .. } && owner_alive == with_owner
}

/// The number of times that a task was woken while its owner was there.
pub open spec fn wakes(events: Seq<PeriodicEvent>) -> nat
    decreases events.len(),
{
    if events.len() == 0 {
        0
    } else {
        wakes(events.drop_last()) + if is_wake(events.last(), true) {
            1nat
        } else {
            0nat
        }
    }
}

/// A task calls back exactly once for each time that it is woken, by its interval or
/// early, while its owner is there. It never calls back otherwise, nor at its start.
pub proof fn law_one_tick_per_wake(events: Seq<PeriodicEvent>)
    ensures
        ticks(actions_of(events)) == wakes(events),
        actions_of(events).len() == events.len() + 1,
    decreases events.len(),
{
    if events.len() > 0 {
        law_one_tick_per_wake(events.drop_last());
        let before = actions_of(events.drop_last());
        assert(before.push(next_action(events.last())).drop_last() =~= before);
    } else {
        assert(seq![first_action()].drop_last() =~= Seq::empty());
        assert(ticks(Seq::<PeriodicAction>::empty()) == 0);
    }
}

/// No two calls back overlap: a task that calls back is not woken before the callback
/// has returned or panicked.
pub proof fn law_ticks_do_not_overlap(events: Seq<PeriodicEvent>, next: PeriodicEvent)
    requires
        state_after(events) is Ticking,
        possible(state_after(events), next),
    ensures
        next is TickReturned || next is Panicked,
        next_action(next) !is Tick,
{
}

/// After a panic the task waits for the backoff, one second, and nothing else can
/// happen to it. Then its loop starts again without consuming the first tick of the
/// interval, so that it calls back when that comes. A panic never ends a task.
pub proof fn law_panic_restarts(
    events: Seq<PeriodicEvent>,
    message: String,
    next: PeriodicEvent,
    cause: WakeCause,
)
    requires
        possible_history(events),
        possible(state_after(events), PeriodicEvent::Panicked(message)),
    ensures
        next_action(PeriodicEvent::Panicked(message)) == (PeriodicAction::BackOff {
            message,
            backoff_secs: 1,
        }),
        possible(state_after(events.push(PeriodicEvent::Panicked(message))), next)
            <==> next is BackoffElapsed,
        ({
            let again = events.push(PeriodicEvent::Panicked(message)).push(
                PeriodicEvent::BackoffElapsed,
            ).push(PeriodicEvent::Started).push(PeriodicEvent::Woken { cause, owner_alive: true });
            let n = events.len() as int;
            &&& possible_history(again)
            &&& actions_of(again)[n + 2] == (PeriodicAction::StartInterval {
                skip_first_tick: false,
            })
            &&& actions_of(again)[n + 3] is Wait
            &&& actions_of(again)[n + 4] is Tick
        }),
{
    let p1 = events.push(PeriodicEvent::Panicked(message));
    let p2 = p1.push(PeriodicEvent::BackoffElapsed);
    let p3 = p2.push(PeriodicEvent::Started);
    let p4 = p3.push(PeriodicEvent::Woken { cause, owner_alive: true });
    lemma_push_possible(events, PeriodicEvent::Panicked(message));
    lemma_push_possible(p1, PeriodicEvent::BackoffElapsed);
    lemma_push_possible(p2, PeriodicEvent::Started);
    lemma_push_possible(p3, PeriodicEvent::Woken { cause, owner_alive: true });
    law_one_tick_per_wake(p1);
    assert(p4.drop_last() =~= p3);
    assert(p3.drop_last() =~= p2);
    assert(p2.drop_last() =~= p1);
    reveal_with_fuel(actions_of, 4);
}

proof fn lemma_push_possible(events: Seq<PeriodicEvent>, event: PeriodicEvent)
    requires
        possible_history(events),
        possible(state_after(events), event),
    ensures
        possible_history(events.push(event)),
{
    let longer = events.push(event);
    assert forall|i: int| 0 <= i < longer.len() implies possible(
        state_after(#[trigger] longer.subrange(0, i)),
        longer[i],
    ) by {
        if i < events.len() {
            assert(longer.subrange(0, i) =~= events.subrange(0, i));
        } else {
            assert(longer.subrange(0, i) =~= events);
        }
    }
}

/// A task ends exactly when it is woken and its owner is gone. Nothing happens to it
/// after that: the wake that ends it is the last event of its history.
pub proof fn law_ends_with_its_owner(events: Seq<PeriodicEvent>, i: int)
    requires
        possible_history(events),
        0 <= i < events.len(),
    ensures
        state_after(events.subrange(0, i + 1)) is Ended <==> is_wake(events[i], false),
        is_wake(events[i], false) ==> i == events.len() - 1
            && next_action(events[i]) is End,
        next_action(events[i]) is End ==> is_wake(events[i], false),
{
    assert(events.subrange(0, i + 1).last() == events[i]);
    if i + 1 < events.len() {
        assert(possible(state_after(events.subrange(0, i + 1)), events[i + 1]));
    }
}

/// The first start consumes the first tick of the interval, so that a task does not call
/// back before a full interval has passed.
pub proof fn law_first_run_waits(event: PeriodicEvent)
    ensures
        first_action() == (PeriodicAction::StartInterval { skip_first_tick: true }),
        possible(state_after(Seq::empty()), event) <==> event is Started || event is Panicked,
{
}

/// Once the interval has started, and once a callback has returned, the task waits, and the
/// next thing that can happen to it is that it is woken, or that it panics. A task that is
/// woken while its owner is there calls back whatever woke it.
pub proof fn law_task_waits_between_ticks(
    events: Seq<PeriodicEvent>,
    next: PeriodicEvent,
    cause: WakeCause,
)
    ensures
        ({
            let started = events.push(PeriodicEvent::Started);
            let returned = events.push(PeriodicEvent::TickReturned);
            let woken = PeriodicEvent::Woken { cause, owner_alive: true };
            &&& next_action(PeriodicEvent::Started) is Wait
            &&& next_action(PeriodicEvent::TickReturned) is Wait
            &&& possible(state_after(started), next) <==> next is Woken || next is Panicked
            &&& possible(state_after(returned), next) <==> next is Woken || next is Panicked
            &&& next_action(woken) is Tick
            &&& possible(state_after(events.push(woken)), next) <==> next is TickReturned || next
                is Panicked
        }),
{
}

} // verus!
