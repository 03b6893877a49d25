//! Metrics of the priority scheduler: the counters and the queue-wait histogram that
//! the admission and queue paths record. Each function says what to record; the
//! exporter takes it from there.
//!
//! All names carry the `smg_` prefix of the gateway. Class labels are static texts.

use vstd::prelude::*;

verus! {

pub const ADMIT_TOTAL: &'static str = "smg_scheduler_admit_total";

pub const QUEUE_WAIT_SECONDS: &'static str = "smg_scheduler_queue_wait_seconds";

pub const PREEMPTION_TOTAL: &'static str = "smg_scheduler_preemption_total";

pub const CLAMP_TOTAL: &'static str = "smg_scheduler_clamp_total";

pub const UNKNOWN_PRIORITY_TOTAL: &'static str = "smg_scheduler_unknown_priority_value_total";

pub const STARVATION_PROMOTION_TOTAL: &'static str = "smg_scheduler_starvation_promotion_total";

/// What kind of metric a description is of.
#[derive(Debug, Clone, Copy, PartialEq, Eq, Structural)]
pub enum MetricKind {
    Counter,
    Histogram,
}

/// The description of a metric.
#[derive(Debug, Clone, Copy)]
pub struct MetricDescription {
    pub kind: MetricKind,
    pub name: &'static str,
    pub help: &'static str,
}

/// A counter to increment by one.
#[derive(Debug)]
pub struct CounterSample {
    pub name: &'static str,
    pub labels: Vec<(&'static str, String)>,
}

/// A duration to record in a histogram, in seconds and nanoseconds.
#[derive(Debug)]
pub struct HistogramSample {
    pub name: &'static str,
    pub labels: Vec<(&'static str, String)>,
    pub secs: u64,
    pub nanos: u32,
}

/// The labels of a sample.
pub open spec fn label_views(labels: Seq<(&'static str, String)>) -> Seq<(Seq<char>, Seq<char>)> {
    labels.map_values(|l: (&'static str, String)| (l.0@, l.1@))
}

/// What a description says.
pub open spec fn description_view(d: MetricDescription) -> (MetricKind, Seq<char>, Seq<char>) {
    (d.kind, d.name@, d.help@)
}

/// What a counter sample says.
pub open spec fn counter_view(s: CounterSample) -> (Seq<char>, Seq<(Seq<char>, Seq<char>)>) {
    (s.name@, label_views(s.labels@))
}

/// What is counted for an admission attempt.
pub open spec fn admit_of(class: Seq<char>, outcome: Seq<char>) -> (
    Seq<char>,
    Seq<(Seq<char>, Seq<char>)>,
) {
    (ADMIT_TOTAL@, seq![("class"@, class), ("outcome"@, outcome)])
}

/// What is recorded of a wait: the histogram, its labels, the seconds and the nanoseconds.
pub open spec fn queue_wait_of(class: Seq<char>, secs: u64, nanos: u32) -> (
    Seq<char>,
    Seq<(Seq<char>, Seq<char>)>,
    u64,
    u32,
) {
    (QUEUE_WAIT_SECONDS@, seq![("class"@, class)], secs, nanos)
}

/// What is counted for a preemption.
pub open spec fn preemption_of(victim: Seq<char>, by: Seq<char>) -> (
    Seq<char>,
    Seq<(Seq<char>, Seq<char>)>,
) {
    (PREEMPTION_TOTAL@, seq![("victim_class"@, victim), ("by_class"@, by)])
}

/// What is counted for a clamp.
pub open spec fn clamp_of(requested: Seq<char>, effective: Seq<char>, tenant: Seq<char>) -> (
    Seq<char>,
    Seq<(Seq<char>, Seq<char>)>,
) {
    (
        CLAMP_TOTAL@,
        seq![
            ("tenant"@, tenant),
            ("requested_class"@, requested),
            ("effective_class"@, effective),
        ],
    )
}

/// What is counted for an unrecognized priority.
pub open spec fn unknown_priority_of(tenant: Seq<char>) -> (
    Seq<char>,
    Seq<(Seq<char>, Seq<char>)>,
) {
    (UNKNOWN_PRIORITY_TOTAL@, seq![("tenant"@, tenant)])
}

/// What is counted for a promotion.
pub open spec fn starvation_promotion_of(class: Seq<char>) -> (
    Seq<char>,
    Seq<(Seq<char>, Seq<char>)>,
) {
    (STARVATION_PROMOTION_TOTAL@, seq![("class"@, class)])
}

fn one_label(name: &'static str, value: &str) -> (labels: Vec<(&'static str, String)>)
    ensures
        label_views(labels@) == seq![(name@, value@)],
{
    let mut labels: Vec<(&'static str, String)> = Vec::new();
    labels.push((name, value.to_owned()));
    assert(label_views(labels@) =~= seq![(name@, value@)]);
    labels
}

fn and_label(labels: Vec<(&'static str, String)>, name: &'static str, value: &str) -> (more: Vec<
    (&'static str, String),
>)
    ensures
        label_views(more@) == label_views(labels@).push((name@, value@)),
{
    let mut more: Vec<(&'static str, String)> = labels;
    let ghost before = more@;
    more.push((name, value.to_owned()));
    assert(label_views(more@) =~= label_views(before).push((name@, value@)));
    more
}

/// The descriptions of all metrics, to be registered once.
pub fn describe() -> (descriptions: Vec<MetricDescription>)
    ensures
        descriptions@.map_values(|d: MetricDescription| description_view(d)) == seq![
            (
                MetricKind::Counter,
                ADMIT_TOTAL@,
                "Priority-scheduler admission outcomes by class and outcome"@,
            ),
            (
                MetricKind::Histogram,
                QUEUE_WAIT_SECONDS@,
                "Time a request spent queued before admission, timeout, or cancel"@,
            ),
            (
                MetricKind::Counter,
                PREEMPTION_TOTAL@,
                "Successful preemptions by victim class and preempting class"@,
            ),
            (
                MetricKind::Counter,
                CLAMP_TOTAL@,
                "Requests whose priority was clamped below the requested class by tenant policy"@,
            ),
            (
                MetricKind::Counter,
                UNKNOWN_PRIORITY_TOTAL@,
                "Requests with an unrecognized priority header value (treated as default)"@,
            ),
            (
                MetricKind::Counter,
                STARVATION_PROMOTION_TOTAL@,
                "Queued waiters admitted via the starvation override path"@,
            ),
        ],
{
    let mut all: Vec<MetricDescription> = Vec::new();
    all.push(
        MetricDescription {
            kind: MetricKind::Counter,
            name: ADMIT_TOTAL,
            help: "Priority-scheduler admission outcomes by class and outcome",
        },
    );
    all.push(
        MetricDescription {
            kind: MetricKind::Histogram,
            name: QUEUE_WAIT_SECONDS,
            help: "Time a request spent queued before admission, timeout, or cancel",
        },
    );
    all.push(
        MetricDescription {
            kind: MetricKind::Counter,
            name: PREEMPTION_TOTAL,
            help: "Successful preemptions by victim class and preempting class",
        },
    );
    all.push(
        MetricDescription {
            kind: MetricKind::Counter,
            name: CLAMP_TOTAL,
            help: "Requests whose priority was clamped below the requested class by tenant policy",
        },
    );
    all.push(
        MetricDescription {
            kind: MetricKind::Counter,
            name: UNKNOWN_PRIORITY_TOTAL,
            help: "Requests with an unrecognized priority header value (treated as default)",
        },
    );
    all.push(
        MetricDescription {
            kind: MetricKind::Counter,
            name: STARVATION_PROMOTION_TOTAL,
            help: "Queued waiters admitted via the starvation override path",
        },
    );
    assert(all@.map_values(|d: MetricDescription| description_view(d)) =~= seq![
        (
            MetricKind::Counter,
            ADMIT_TOTAL@,
            "Priority-scheduler admission outcomes by class and outcome"@,
        ),
        (
            MetricKind::Histogram,
            QUEUE_WAIT_SECONDS@,
            "Time a request spent queued before admission, timeout, or cancel"@,
        ),
        (
            MetricKind::Counter,
            PREEMPTION_TOTAL@,
            "Successful preemptions by victim class and preempting class"@,
        ),
        (
            MetricKind::Counter,
            CLAMP_TOTAL@,
            "Requests whose priority was clamped below the requested class by tenant policy"@,
        ),
        (
            MetricKind::Counter,
            UNKNOWN_PRIORITY_TOTAL@,
            "Requests with an unrecognized priority header value (treated as default)"@,
        ),
        (
            MetricKind::Counter,
            STARVATION_PROMOTION_TOTAL@,
            "Queued waiters admitted via the starvation override path"@,
        ),
    ]);
    all
}

/// The outcome of an admission attempt for `class`.
pub fn record_admit(class: &'static str, outcome: &'static str) -> (sample: CounterSample)
    ensures
        sample.name@ == ADMIT_TOTAL@,
        label_views(sample.labels@) == seq![("class"@, class@), ("outcome"@, outcome@)],
        counter_view(sample) == admit_of(class@, outcome@),
{
    let labels = and_label(one_label("class", class), "outcome", outcome);
    assert(label_views(labels@) =~= seq![("class"@, class@), ("outcome"@, outcome@)]);
    CounterSample { name: ADMIT_TOTAL, labels }
}

/// The time that a request waited in the queue of a class.
pub fn record_queue_wait(class: &'static str, secs: u64, nanos: u32) -> (sample: HistogramSample)
    ensures
        sample.name@ == QUEUE_WAIT_SECONDS@,
        label_views(sample.labels@) == seq![("class"@, class@)],
        sample.secs == secs,
        sample.nanos == nanos,
        (sample.name@, label_views(sample.labels@), sample.secs, sample.nanos) == queue_wait_of(
            class@,
            secs,
            nanos,
        ),
{
    HistogramSample { name: QUEUE_WAIT_SECONDS, labels: one_label("class", class), secs, nanos }
}

/// A successful preemption.
pub fn record_preemption(victim_class: &'static str, by_class: &'static str) -> (sample:
    CounterSample)
    ensures
        sample.name@ == PREEMPTION_TOTAL@,
        label_views(sample.labels@) == seq![
            ("victim_class"@, victim_class@),
            ("by_class"@, by_class@),
        ],
        counter_view(sample) == preemption_of(victim_class@, by_class@),
{
    let labels = and_label(one_label("victim_class", victim_class), "by_class", by_class);
    assert(label_views(labels@) =~= seq![
        ("victim_class"@, victim_class@),
        ("by_class"@, by_class@),
    ]);
    CounterSample { name: PREEMPTION_TOTAL, labels }
}

/// A priority clamp: the effective class is below the requested one. Clamps are
/// rare, so that the number of tenants among the labels stays bounded.
pub fn record_clamp(requested: &'static str, effective: &'static str, tenant: &str) -> (sample:
    CounterSample)
    ensures
        sample.name@ == CLAMP_TOTAL@,
        label_views(sample.labels@) == seq![
            ("tenant"@, tenant@),
            ("requested_class"@, requested@),
            ("effective_class"@, effective@),
        ],
        counter_view(sample) == clamp_of(requested@, effective@, tenant@),
{
    let labels = and_label(
        and_label(one_label("tenant", tenant), "requested_class", requested),
        "effective_class",
        effective,
    );
    assert(label_views(labels@) =~= seq![
        ("tenant"@, tenant@),
        ("requested_class"@, requested@),
        ("effective_class"@, effective@),
    ]);
    CounterSample { name: CLAMP_TOTAL, labels }
}

/// An unrecognized value of the priority header. The label tells which tenant sets
/// it.
pub fn record_unknown_priority(tenant: &str) -> (sample: CounterSample)
    ensures
        sample.name@ == UNKNOWN_PRIORITY_TOTAL@,
        label_views(sample.labels@) == seq![("tenant"@, tenant@)],
        counter_view(sample) == unknown_priority_of(tenant@),
{
    CounterSample { name: UNKNOWN_PRIORITY_TOTAL, labels: one_label("tenant", tenant) }
}

/// A promotion of a starving request.
pub fn record_starvation_promotion(class: &'static str) -> (sample: CounterSample)
    ensures
        sample.name@ == STARVATION_PROMOTION_TOTAL@,
        label_views(sample.labels@) == seq![("class"@, class@)],
        counter_view(sample) == starvation_promotion_of(class@),
{
    CounterSample { name: STARVATION_PROMOTION_TOTAL, labels: one_label("class", class) }
}

/// Every sample names its metric and says of it what was handed in: an admission its class
/// and its outcome, a wait its class and its length, a preemption who gave way to whom, a
/// clamp the tenant, what was asked for and what was granted, an unrecognized priority its
/// tenant, and a promotion its class.
pub proof fn law_samples_say_what_happened(
    a: Seq<char>,
    b: Seq<char>,
    c: Seq<char>,
    secs: u64,
    nanos: u32,
)
    ensures
        admit_of(a, b).0 == "smg_scheduler_admit_total"@,
        admit_of(a, b).1.len() == 2,
        admit_of(a, b).1[0] == ("class"@, a),
        admit_of(a, b).1[1] == ("outcome"@, b),
        queue_wait_of(a, secs, nanos).0 == "smg_scheduler_queue_wait_seconds"@,
        queue_wait_of(a, secs, nanos).1.len() == 1,
        queue_wait_of(a, secs, nanos).1[0] == ("class"@, a),
        1_000_000_000 * queue_wait_of(a, secs, nanos).2 + queue_wait_of(a, secs, nanos).3
            == 1_000_000_000 * secs + nanos,
        queue_wait_of(a, secs, nanos).3 == nanos,
        preemption_of(a, b).0 == "smg_scheduler_preemption_total"@,
        preemption_of(a, b).1.len() == 2,
        preemption_of(a, b).1[0] == ("victim_class"@, a),
        preemption_of(a, b).1[1] == ("by_class"@, b),
        clamp_of(a, b, c).0 == "smg_scheduler_clamp_total"@,
        clamp_of(a, b, c).1.len() == 3,
        clamp_of(a, b, c).1[0] == ("tenant"@, c),
        clamp_of(a, b, c).1[1] == ("requested_class"@, a),
        clamp_of(a, b, c).1[2] == ("effective_class"@, b),
        unknown_priority_of(a).0 == "smg_scheduler_unknown_priority_value_total"@,
        unknown_priority_of(a).1.len() == 1,
        unknown_priority_of(a).1[0] == ("tenant"@, a),
        starvation_promotion_of(a).0 == "smg_scheduler_starvation_promotion_total"@,
        starvation_promotion_of(a).1.len() == 1,
        starvation_promotion_of(a).1[0] == ("class"@, a),
{
}

} // verus!
