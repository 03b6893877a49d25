use smg_core::scheduler::metrics::{
    describe, record_admit, record_clamp, record_preemption, record_queue_wait,
    record_starvation_promotion, record_unknown_priority, MetricKind, ADMIT_TOTAL,
};
use smg_core::scheduler::outcome;

#[test]
fn every_metric_is_described_once() {
    let all = describe();
    let names: Vec<&str> = all.iter().map(|d| d.name).collect();
    assert_eq!(
        names,
        vec![
            "smg_scheduler_admit_total",
            "smg_scheduler_queue_wait_seconds",
            "smg_scheduler_preemption_total",
            "smg_scheduler_clamp_total",
            "smg_scheduler_unknown_priority_value_total",
            "smg_scheduler_starvation_promotion_total",
        ]
    );
    assert_eq!(all[0].kind, MetricKind::Counter);
    assert_eq!(all[1].kind, MetricKind::Histogram);
    assert_eq!(all[0].help, "Priority-scheduler admission outcomes by class and outcome");
}

#[test]
fn samples_carry_their_labels() {
    let sample = record_admit("interactive", outcome::ADMITTED);
    assert_eq!(sample.name, ADMIT_TOTAL);
    assert_eq!(
        sample.labels,
        vec![("class", "interactive".to_string()), ("outcome", "admitted".to_string())]
    );
    let wait = record_queue_wait("bulk", 3, 500);
    assert_eq!((wait.secs, wait.nanos), (3, 500));
    assert_eq!(wait.labels, vec![("class", "bulk".to_string())]);
    let preemption = record_preemption("bulk", "system");
    assert_eq!(
        preemption.labels,
        vec![("victim_class", "bulk".to_string()), ("by_class", "system".to_string())]
    );
    let clamp = record_clamp("system", "default", "acme");
    assert_eq!(
        clamp.labels,
        vec![
            ("tenant", "acme".to_string()),
            ("requested_class", "system".to_string()),
            ("effective_class", "default".to_string()),
        ]
    );
    assert_eq!(record_unknown_priority("acme").labels, vec![("tenant", "acme".to_string())]);
    let promotion = record_starvation_promotion("bulk");
    assert_eq!(promotion.name, "smg_scheduler_starvation_promotion_total");
    assert_eq!(promotion.labels, vec![("class", "bulk".to_string())]);
}

#[test]
fn outcomes_have_stable_labels() {
    assert_eq!(outcome::REJECTED_QUEUE_FULL, "rejected_queue_full");
    assert_eq!(outcome::REJECTED_QUEUE_TIMEOUT, "rejected_queue_timeout");
    assert_eq!(outcome::PREEMPTED, "preempted");
    assert_eq!(outcome::CLIENT_CANCELLED, "client_cancelled");
}
