use smg_core::background::driver::{DrainStep, DriverState, SweepOutcome};
use smg_core::background::json::JsonValue;
use smg_core::background::supervisor::{
    panic_message, periodic_step, start_periodic, PeriodicAction, PeriodicEvent, PeriodicState,
    WakeCause, PANIC_RESTART_BACKOFF_SECS,
};
use smg_core::background::worker::{
    failed_raw_response, finalize_unavailable, FinalizeStatus, LeasedJob,
    BACKGROUND_EXECUTION_UNAVAILABLE,
};

/// Drains a queue and returns what was dispatched.
fn drain(driver: &mut DriverState, queue: &mut Vec<String>) -> Vec<String> {
    let mut dispatched = Vec::new();
    loop {
        match driver.begin_claim::<String>() {
            DrainStep::Claim { worker_id, lease_secs } => {
                assert_eq!(worker_id, driver.worker_id());
                assert_eq!(lease_secs, 30);
            }
            _ => return dispatched,
        }
        let next = if queue.is_empty() { None } else { Some(queue.remove(0)) };
        match driver.claim_ended(Ok(next)) {
            DrainStep::Dispatch(job) => dispatched.push(job),
            _ => return dispatched,
        }
    }
}

fn jobs(n: usize) -> Vec<String> {
    (0..n).map(|i| format!("r{i}")).collect()
}

#[test]
fn startup_pass_dispatches_all_jobs_to_terminal() {
    let mut driver = DriverState::new(4, 30);
    let mut queue = jobs(5);
    let mut seen = drain(&mut driver, &mut queue);
    assert_eq!(seen.len(), 4);
    driver.job_finished();
    assert!(driver.take_wakeup());
    seen.extend(drain(&mut driver, &mut queue));
    assert_eq!(seen, jobs(5));
    assert!(queue.is_empty());
}

#[test]
fn respects_concurrency_cap() {
    let mut driver = DriverState::with_identity(1, 2, 30);
    let mut queue = jobs(6);
    let mut seen = drain(&mut driver, &mut queue);
    assert_eq!(seen.len(), 2);
    assert!(matches!(driver.begin_claim::<String>(), DrainStep::NoSlot));
    while !queue.is_empty() {
        assert_eq!(driver.running(), 2);
        driver.job_finished();
        seen.extend(drain(&mut driver, &mut queue));
    }
    assert_eq!(seen, jobs(6));
}

#[test]
fn returned_job_frees_its_slot_and_wakes() {
    let mut driver = DriverState::with_identity(1, 2, 30);
    assert_eq!(drain(&mut driver, &mut jobs(2)).len(), 2);
    assert!(!driver.take_wakeup());
    driver.job_finished();
    assert_eq!((driver.claiming(), driver.running()), (0, 1));
    assert!(driver.take_wakeup());
    assert!(!driver.take_wakeup());
    assert_eq!(drain(&mut driver, &mut jobs(3)).len(), 1);
}

#[test]
fn panicked_job_frees_its_slot_without_a_wakeup() {
    let mut driver = DriverState::with_identity(1, 1, 30);
    assert_eq!(drain(&mut driver, &mut jobs(1)).len(), 1);
    driver.release();
    assert_eq!(driver.running(), 0);
    assert!(!driver.take_wakeup());
    assert_eq!(drain(&mut driver, &mut jobs(1)).len(), 1);
}

#[test]
fn zero_concurrency_still_has_a_slot() {
    let mut driver = DriverState::with_identity(1, 0, 30);
    assert_eq!(drain(&mut driver, &mut jobs(3)).len(), 1);
}

#[test]
fn failed_claim_frees_its_slot() {
    let mut driver = DriverState::with_identity(1, 1, 30);
    assert!(matches!(driver.begin_claim::<String>(), DrainStep::Claim { .. }));
    let step = driver.claim_ended::<String>(Err("down".to_string()));
    assert!(matches!(step, DrainStep::ClaimFailed(e) if e == "down"));
    assert_eq!((driver.claiming(), driver.running()), (0, 0));
    assert!(matches!(driver.begin_claim::<String>(), DrainStep::Claim { .. }));
    assert!(matches!(driver.claim_ended::<String>(Ok(None)), DrainStep::NothingToClaim));
}

#[test]
fn sweeper_reclaims_expired_lease() {
    let mut driver = DriverState::with_identity(1, 4, 30);
    assert!(matches!(driver.swept(Ok(0)), SweepOutcome::Nothing));
    assert!(!driver.take_wakeup());
    assert!(matches!(driver.swept(Ok(1)), SweepOutcome::Requeued(1)));
    assert!(driver.take_wakeup());
    assert!(!driver.take_wakeup());
    assert!(matches!(driver.swept(Err("down".to_string())), SweepOutcome::Failed(e) if e == "down"));
    assert!(!driver.take_wakeup());
}

#[test]
fn worker_ids() {
    let driver = DriverState::with_identity(2, 1, 30);
    assert_eq!(driver.worker_id(), "bg-00000000-0000-0000-0000-000000000002");
    assert_ne!(DriverState::new(1, 30).worker_id(), DriverState::new(1, 30).worker_id());
}

#[test]
fn drain_ends_at_the_first_failure() {
    let mut driver = DriverState::with_identity(1, 3, 30);
    let mut replies = vec![Err("down".to_string()), Ok(Some("b")), Ok(Some("a"))];
    let mut seen = Vec::new();
    let end = loop {
        match driver.begin_claim::<&str>() {
            DrainStep::Claim { lease_secs, .. } => assert_eq!(lease_secs, 30),
            other => break other,
        }
        match driver.claim_ended(replies.pop().unwrap_or(Ok(None))) {
            DrainStep::Dispatch(job) => seen.push(job),
            other => break other,
        }
    };
    assert_eq!(seen, ["a", "b"]);
    assert!(matches!(end, DrainStep::ClaimFailed(e) if e == "down"));
    assert!(replies.is_empty());
    assert_eq!((driver.claiming(), driver.running()), (0, 2));
}

/// Runs a task through some events and returns the actions, the first one included.
fn run_periodic(events: Vec<PeriodicEvent>) -> (PeriodicState, Vec<PeriodicAction>) {
    let (mut state, action) = start_periodic();
    let mut actions = vec![action];
    for event in events {
        let (next, action) = periodic_step(state, event);
        state = next;
        actions.push(action);
    }
    (state, actions)
}

fn ticks(actions: &[PeriodicAction]) -> usize {
    actions.iter().filter(|a| matches!(a, PeriodicAction::Tick)).count()
}

#[test]
fn fires_on_notify_before_interval_elapses() {
    let (state, actions) = run_periodic(vec![
        PeriodicEvent::Started,
        PeriodicEvent::Woken { cause: WakeCause::Notified, owner_alive: true },
    ]);
    assert!(matches!(actions[0], PeriodicAction::StartInterval { skip_first_tick: true }));
    assert!(matches!(actions[1], PeriodicAction::Wait));
    assert_eq!(ticks(&actions), 1);
    assert_eq!(state, PeriodicState::Ticking);
}

#[test]
fn fires_on_interval_without_notify() {
    let mut events = vec![PeriodicEvent::Started];
    for _ in 0..5 {
        events.push(PeriodicEvent::Woken { cause: WakeCause::Interval, owner_alive: true });
        events.push(PeriodicEvent::TickReturned);
    }
    let (state, actions) = run_periodic(events);
    assert_eq!(ticks(&actions), 5);
    assert!(matches!(actions.last(), Some(PeriodicAction::Wait)));
    assert_eq!(state, PeriodicState::Waiting);
}

#[test]
fn restarts_loop_after_panic() {
    let mut events = Vec::new();
    for _ in 0..2 {
        events.push(PeriodicEvent::Started);
        events.push(PeriodicEvent::Woken { cause: WakeCause::Interval, owner_alive: true });
        events.push(PeriodicEvent::Panicked("boom".to_string()));
        events.push(PeriodicEvent::BackoffElapsed);
    }
    let (state, actions) = run_periodic(events);
    assert_eq!(ticks(&actions), 2, "loop did not restart after panic");
    assert_eq!(PANIC_RESTART_BACKOFF_SECS, 1);
    assert!(matches!(
        &actions[3],
        PeriodicAction::BackOff { message, backoff_secs: 1 } if message == "boom"
    ));
    assert!(matches!(actions[4], PeriodicAction::StartInterval { skip_first_tick: false }));
    assert_eq!(state, PeriodicState::Starting);
}

#[test]
fn panic_outside_the_callback_restarts_too() {
    let (state, action) =
        periodic_step(start_periodic().0, PeriodicEvent::Panicked("no interval".to_string()));
    assert_eq!(state, PeriodicState::BackingOff);
    assert!(matches!(action, PeriodicAction::BackOff { backoff_secs: 1, .. }));
}

#[test]
fn exits_when_owner_dropped() {
    let (state, actions) = run_periodic(vec![
        PeriodicEvent::Started,
        PeriodicEvent::Woken { cause: WakeCause::Interval, owner_alive: true },
        PeriodicEvent::TickReturned,
        PeriodicEvent::Woken { cause: WakeCause::Interval, owner_alive: false },
    ]);
    assert_eq!(ticks(&actions), 1);
    assert!(matches!(actions.last(), Some(PeriodicAction::End)));
    assert_eq!(state, PeriodicState::Ended);
}

#[test]
fn panic_messages() {
    let s = "owned".to_string();
    assert_eq!(panic_message(Some("slice"), None), "slice");
    assert_eq!(panic_message(None, Some(&s)), "owned");
    assert_eq!(panic_message(None, None), "(non-string panic)");
}

#[test]
fn unavailable_worker_finalizes_claimed_job_as_failed() {
    let job = LeasedJob {
        response_id: "r1".to_string(),
        worker_id: "w1".to_string(),
        model: "gpt-5.1".to_string(),
    };
    let request = finalize_unavailable(&job);
    assert_eq!(request.response_id, "r1");
    assert_eq!(request.worker_id, "w1");
    assert_eq!(request.status, FinalizeStatus::Failed);
    let status = request.raw_response.get("status").and_then(|v| v.as_str());
    assert_eq!(status, Some("failed"));
    let code = request.raw_response.get("error").and_then(|e| e.get("code"));
    assert_eq!(code.and_then(|c| c.as_str()), Some(BACKGROUND_EXECUTION_UNAVAILABLE));
    let response = failed_raw_response(&job);
    assert!(matches!(response.get("output"), Some(JsonValue::List(items)) if items.is_empty()));
}
