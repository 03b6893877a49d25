//! Nodes of a last-writer-wins namespace that exchange their logs agree.
//!
//! The central notion is that a state reflects operations: of every key it shows the
//! newest operation on it. Writing and receiving keep the state a reflection of the
//! log, and two states that reflect the same operations hold the same values.

use vstd::prelude::*;

use super::super::epoch_max_wins;
use super::super::kv_store;
use super::super::kv_store::KvView;
use super::super::log_laws;
use super::super::merge_strategy::MergeStrategy;
use super::super::op_sets;
use super::super::operation::OperationView;
use super::super::operation_log;
use super::super::operation_log::AUTO_COMPACT_THRESHOLD;
use super::super::replica;
use super::super::watermark;
use super::super::watermark::CrdtVersion;
use super::lww;
use super::lww::{LwwState, LwwView};
use super::lww_laws;

verus! {

/// `x` wins over `y`: it is newer, or it is a removal and `y` a write of the same
/// version.
pub open spec fn beats(x: OperationView, y: OperationView) -> bool {
    epoch_max_wins::version_lt(y.version, x.version) || (x.version == y.version && x.value is None
        && y.value is Some)
}

/// `op` is one of the operations, and none of them on its key wins over it.
pub open spec fn newest_among(ops: Seq<OperationView>, op: OperationView) -> bool {
    &&& ops.contains(op)
    &&& forall|o: OperationView| #[trigger]
        ops.contains(o) && o.key == op.key ==> !beats(o, op)
}

/// The state has of the key of `op` what `op` says.
pub open spec fn shows(s: LwwState, op: OperationView) -> bool {
    &&& s.table.contains_key(op.key)
    &&& s.table[op.key].version == op.version
    &&& s.table[op.key].is_tombstone == (op.value is None)
    &&& match op.value {
        Some(value) => s.kv.live.contains_key(op.key) && s.kv.live[op.key] == value,
        None => !s.kv.live.contains_key(op.key),
    }
}

/// The state shows of each key the newest of the operations, and knows no other key.
pub open spec fn reflects(s: LwwState, ops: Seq<OperationView>) -> bool {
    &&& forall|op: OperationView| #[trigger] ops.contains(op) ==> s.table.contains_key(op.key)
    &&& forall|key: Seq<char>| #[trigger]
        s.table.contains_key(key) ==> exists|op: OperationView| #[trigger]
            newest_among(ops, op) && op.key == key && shows(s, op)
    &&& forall|key: Seq<char>| #[trigger]
        s.kv.live.contains_key(key) ==> s.table.contains_key(key)
}

/// One version stamps one operation.
pub open spec fn one_per_version(ops: Seq<OperationView>) -> bool {
    forall|x: OperationView, y: OperationView|
        #![trigger ops.contains(x), ops.contains(y)]
        ops.contains(x) && ops.contains(y) && x.version == y.version ==> x == y
}

/// The same values, and the same versions of writes and removals. When each arrived
/// may differ.
pub open spec fn agree(s: LwwState, t: LwwState) -> bool {
    &&& s.kv.live == t.kv.live
    &&& forall|key: Seq<char>| #[trigger]
        s.table.contains_key(key) <==> t.table.contains_key(key)
    &&& forall|key: Seq<char>| #[trigger]
        s.table.contains_key(key) ==> s.table[key].version == t.table[key].version
            && s.table[key].is_tombstone == t.table[key].is_tombstone
}

/// The state without keys.
pub open spec fn empty_state() -> LwwState {
    LwwState { kv: KvView { live: Map::empty(), generation: 0 }, table: Map::empty() }
}

/// Applying an operation keeps the state a reflection.
proof fn lemma_apply_reflects(s: LwwState, ops: Seq<OperationView>, op: OperationView, now: u64)
    requires
        reflects(s, ops),
    ensures
        reflects(lww::lww_apply(s, op, now), ops.push(op)),
{
    let t = lww::lww_apply(s, op, now);
    let more = ops.push(op);
    op_sets::lemma_push_members(ops, op);
    assert forall|o: OperationView| #[trigger] more.contains(o) implies t.table.contains_key(
        o.key,
    ) by {
        assert(ops.contains(o) ==> s.table.contains_key(o.key));
    }
    assert forall|key: Seq<char>| #[trigger] t.table.contains_key(key) implies exists|
        n: OperationView,
    | #[trigger] newest_among(more, n) && n.key == key && shows(t, n) by {
        if key != op.key {
            assert(s.table.contains_key(key));
            let n = choose|n: OperationView| #[trigger]
                newest_among(ops, n) && n.key == key && shows(s, n);
            assert(newest_among(more, n) && shows(t, n));
        } else if lww_laws::settled(s, op) {
            assert(t == s);
            let n = choose|n: OperationView| #[trigger]
                newest_among(ops, n) && n.key == key && shows(s, n);
            assert(!beats(op, n));
            assert(newest_among(more, n) && shows(t, n));
        } else {
            assert forall|o: OperationView| #[trigger]
                more.contains(o) && o.key == key implies !beats(o, op) by {
                if o != op {
                    assert(ops.contains(o));
                    assert(s.table.contains_key(key));
                    let n = choose|n: OperationView| #[trigger]
                        newest_among(ops, n) && n.key == key && shows(s, n);
                    assert(!beats(o, n));
                    assert(beats(op, n));
                }
            }
            assert(newest_among(more, op) && shows(t, op));
        }
    }
}

/// Applying operations keeps the state a reflection.
proof fn lemma_apply_all_reflects(
    s: LwwState,
    ops: Seq<OperationView>,
    more: Seq<OperationView>,
    now: u64,
)
    requires
        reflects(s, ops),
    ensures
        reflects(lww::lww_apply_all(s, more, now), ops + more),
    decreases more.len(),
{
    if more.len() == 0 {
        assert(ops + more =~= ops);
    } else {
        let rest = more.drop_last();
        lemma_apply_all_reflects(s, ops, rest, now);
        lemma_apply_reflects(
            lww::lww_apply_all(s, rest, now),
            ops + rest,
            more.last(),
            now,
        );
        assert((ops + rest).push(more.last()) =~= ops + more);
    }
}

/// What a state reflects is a matter of which operations there are.
proof fn lemma_reflects_members(s: LwwState, a: Seq<OperationView>, b: Seq<OperationView>)
    requires
        reflects(s, a),
        op_sets::same_members(a, b),
    ensures
        reflects(s, b),
{
    assert forall|op: OperationView| #[trigger] b.contains(op) implies s.table.contains_key(
        op.key,
    ) by {
        assert(a.contains(op));
    }
    assert forall|key: Seq<char>| #[trigger] s.table.contains_key(key) implies exists|
        n: OperationView,
    | #[trigger] newest_among(b, n) && n.key == key && shows(s, n) by {
        let n = choose|n: OperationView| #[trigger]
            newest_among(a, n) && n.key == key && shows(s, n);
        assert forall|o: OperationView| #[trigger]
            b.contains(o) && o.key == key implies !beats(o, n) by {
            assert(a.contains(o));
        }
        assert(newest_among(b, n));
    }
}

/// An operation of the list is unseen if the log does not know its version.
proof fn lemma_unseen_members(log: Seq<OperationView>, ops: Seq<OperationView>)
    ensures
        forall|op: OperationView| #[trigger]
            lww::unseen(log, ops).contains(op) <==> ops.contains(op) && !operation_log::known(
                log,
                op.version,
            ),
    decreases ops.len(),
{
    reveal(Seq::filter);
    if ops.len() > 0 {
        let rest = ops.drop_last();
        lemma_unseen_members(log, rest);
        op_sets::lemma_push_members(rest, ops.last());
        assert(ops =~= rest.push(ops.last()));
        op_sets::lemma_push_members(lww::unseen(log, rest), ops.last());
    }
}

/// Merging logs loses no operation and invents none.
proof fn lemma_merged_members(base: Seq<OperationView>, remote: Seq<OperationView>)
    requires
        one_per_version(base + remote),
    ensures
        op_sets::same_members(
            operation_log::merged_log(
                base,
                remote,
                operation_log::repeated(MergeStrategy::LastWriterWins, remote.len()),
            ).0,
            base + remote,
        ),
{
    let strategies = operation_log::repeated(MergeStrategy::LastWriterWins, remote.len());
    let merged = operation_log::merged_log(base, remote, strategies).0;
    lemma_merged_invents_nothing(base, remote, strategies);
    op_sets::lemma_concat_members(base, remote);
    log_laws::law_merge_extends_log(base, remote, strategies);
    assert forall|op: OperationView| merged.contains(op) <==> (base + remote).contains(op) by {
        if base.contains(op) {
            let k = choose|k: int| 0 <= k < base.len() && base[k] == op;
            assert(base =~= merged.subrange(0, base.len() as int));
            assert(merged[k] == op);
        }
        if remote.contains(op) {
            let k = choose|k: int| 0 <= k < remote.len() && remote[k] == op;
            assert(remote[k].version == op.version);
            assert(operation_log::known(remote, op.version));
            assert(operation_log::known(merged, op.version));
            let m = choose|m: int|
                0 <= m < merged.len() && (#[trigger] merged[m]).version == op.version;
            assert(merged.contains(merged[m]));
            assert((base + remote).contains(merged[m]) && (base + remote).contains(op));
            assert(merged[m] == op);
        }
    }
}

proof fn lemma_merged_invents_nothing(
    base: Seq<OperationView>,
    remote: Seq<OperationView>,
    strategies: Seq<MergeStrategy>,
)
    requires
        strategies.len() == remote.len(),
        forall|i: int| 0 <= i < strategies.len() ==> strategies[i] is LastWriterWins,
    ensures
        forall|op: OperationView| #[trigger]
            operation_log::merged_log(base, remote, strategies).0.contains(op) ==> base.contains(op)
                || remote.contains(op),
    decreases remote.len(),
{
    if remote.len() > 0 {
        let rest = remote.drop_last();
        let before = operation_log::merged_log(base, rest, strategies.drop_last());
        lemma_merged_invents_nothing(base, rest, strategies.drop_last());
        op_sets::lemma_push_members(rest, remote.last());
        assert(remote =~= rest.push(remote.last()));
        op_sets::lemma_push_members(before.0, remote.last());
    }
}

/// Compacting a log keeps it telling the state.
proof fn lemma_compaction_reflects(
    s: LwwState,
    ops: Seq<OperationView>,
    compact: Seq<OperationView>,
)
    requires
        reflects(s, ops),
        one_per_version(ops),
        operation_log::is_compaction(
            ops,
            operation_log::always(MergeStrategy::LastWriterWins),
            compact,
        ),
    ensures
        reflects(s, compact),
{
    let m = operation_log::snapshot(ops, operation_log::always(MergeStrategy::LastWriterWins));
    assert forall|op: OperationView| #[trigger] compact.contains(op) implies ops.contains(op) by {
        lemma_compact_entry(ops, compact, op);
    }
    assert forall|op: OperationView| #[trigger] compact.contains(op) implies s.table.contains_key(
        op.key,
    ) by {
        assert(ops.contains(op));
    }
    assert forall|key: Seq<char>| #[trigger] s.table.contains_key(key) implies exists|
        n: OperationView,
    | #[trigger] newest_among(compact, n) && n.key == key && shows(s, n) by {
        let n = choose|n: OperationView| #[trigger]
            newest_among(ops, n) && n.key == key && shows(s, n);
        let i = choose|i: int| 0 <= i < ops.len() && ops[i] == n;
        assert(ops[i].key == key);
        assert(operation_log::mentions(ops, key));
        let group = operation_log::on_key(ops, key);
        operation_log::lemma_on_key(ops, key);
        operation_log::lemma_newest_operation(group);
        assert(m.contains_key(key));
        let o = m[key];
        assert(operation_log::mentions(compact, key));
        let j = choose|j: int| 0 <= j < compact.len() && (#[trigger] compact[j]).key == key;
        assert(compact[j] == o);
        assert(compact.contains(o));
        assert(ops.contains(o));
        assert(group.contains(o) && group.contains(n));
        let k = choose|k: int| 0 <= k < group.len() && group[k] == n;
        assert(!epoch_max_wins::version_lt(o.version, group[k].version));
        assert(!beats(o, n));
        assert(o == n);
        assert forall|x: OperationView| #[trigger]
            compact.contains(x) && x.key == key implies !beats(x, n) by {
            let y = choose|y: int| 0 <= y < compact.len() && compact[y] == x;
            assert(m[compact[y].key] == compact[y]);
        }
        assert(newest_among(compact, n));
    }
}

proof fn lemma_compact_entry(
    ops: Seq<OperationView>,
    compact: Seq<OperationView>,
    op: OperationView,
)
    requires
        operation_log::is_compaction(
            ops,
            operation_log::always(MergeStrategy::LastWriterWins),
            compact,
        ),
        compact.contains(op),
    ensures
        ops.contains(op),
{
    let i = choose|i: int| 0 <= i < compact.len() && compact[i] == op;
    assert(compact[i].key == op.key);
    let group = operation_log::on_key(ops, op.key);
    operation_log::lemma_on_key(ops, op.key);
    operation_log::lemma_newest_operation(group);
    assert(group.contains(op));
}

// ---------------------------------------------------------------------------
// Laws
// ---------------------------------------------------------------------------
/// An engine that starts without keys shows of each key the newest operation that it
/// was given, in whatever order they came.
pub proof fn law_newest_operation_is_shown(ops: Seq<OperationView>, now: u64)
    ensures
        reflects(lww::lww_apply_all(empty_state(), ops, now), ops),
{
    assert(reflects(empty_state(), Seq::empty()));
    lemma_apply_all_reflects(empty_state(), Seq::empty(), ops, now);
    assert(Seq::<OperationView>::empty() + ops =~= ops);
}

/// Two states that reflect the same operations agree, if one version stamps one
/// operation.
pub proof fn law_same_operations_same_values(
    s: LwwState,
    t: LwwState,
    a: Seq<OperationView>,
    b: Seq<OperationView>,
)
    requires
        reflects(s, a),
        reflects(t, b),
        op_sets::same_members(a, b),
        one_per_version(a),
    ensures
        agree(s, t),
{
    lemma_reflects_members(t, b, a);
    assert forall|key: Seq<char>| #[trigger] s.table.contains_key(key) <==> t.table.contains_key(
        key,
    ) by {
        if s.table.contains_key(key) {
            let n = choose|n: OperationView| #[trigger]
                newest_among(a, n) && n.key == key && shows(s, n);
            assert(a.contains(n));
        }
        if t.table.contains_key(key) {
            let n = choose|n: OperationView| #[trigger]
                newest_among(a, n) && n.key == key && shows(t, n);
            assert(a.contains(n));
        }
    }
    assert forall|key: Seq<char>| #[trigger] s.table.contains_key(key) implies exists|
        n: OperationView,
    | n.key == key && #[trigger] shows(s, n) && shows(t, n) by {
        assert(t.table.contains_key(key));
        let x = choose|n: OperationView| #[trigger]
            newest_among(a, n) && n.key == key && shows(s, n);
        let y = choose|n: OperationView| #[trigger]
            newest_among(a, n) && n.key == key && shows(t, n);
        assert(!beats(x, y) && !beats(y, x));
        assert(x.version == y.version);
        assert(x == y);
        assert(shows(s, x) && shows(t, x));
    }
    assert forall|key: Seq<char>| s.kv.live.contains_key(key) <==> t.kv.live.contains_key(key) by {
        if s.kv.live.contains_key(key) || t.kv.live.contains_key(key) {
            assert(s.table.contains_key(key));
            let n = choose|n: OperationView|
                n.key == key && #[trigger] shows(s, n) && shows(t, n);
        }
    }
    assert(s.kv.live =~= t.kv.live) by {
        assert forall|key: Seq<char>| s.kv.live.contains_key(key) implies s.kv.live[key]
            == t.kv.live[key] by {
            assert(s.table.contains_key(key));
            let n = choose|n: OperationView|
                n.key == key && #[trigger] shows(s, n) && shows(t, n);
        }
    }
}

/// A local write or removal keeps the state a reflection of the log, as long as the
/// log is not truncated.
pub proof fn law_log_tells_local_writes(
    s: LwwState,
    log: Seq<OperationView>,
    op: OperationView,
    now: u64,
    out: Seq<OperationView>,
)
    requires
        reflects(s, log),
        one_per_version(log.push(op)),
        if lww_laws::settled(s, op) {
            out == log
        } else {
            operation_log::appended(
                log.push(op),
                operation_log::always(MergeStrategy::LastWriterWins),
                out,
            )
        },
        forall|compact: Seq<OperationView>| #[trigger]
            operation_log::is_compaction(
                log.push(op),
                operation_log::always(MergeStrategy::LastWriterWins),
                compact,
            ) ==> compact.len() <= AUTO_COMPACT_THRESHOLD,
    ensures
        reflects(lww::lww_apply(s, op, now), out),
{
    if !lww_laws::settled(s, op) {
        lemma_apply_reflects(s, log, op, now);
        if log.push(op).len() > AUTO_COMPACT_THRESHOLD {
            let compact = choose|compact: Seq<OperationView>| #[trigger]
                operation_log::is_compaction(
                    log.push(op),
                    operation_log::always(MergeStrategy::LastWriterWins),
                    compact,
                ) && out == operation_log::truncated(compact);
            lemma_compaction_reflects(lww::lww_apply(s, op, now), log.push(op), compact);
        }
    }
}

/// Receiving operations keeps the state a reflection of the log, and the state shows
/// of each key the newest operation of either side.
pub proof fn law_log_tells_received_operations(
    before: LwwView,
    clock_before: u64,
    now: u64,
    ops: Seq<OperationView>,
    after: LwwView,
    clock_now: u64,
)
    requires
        reflects(before.state, before.log),
        one_per_version(before.log + ops),
        lww::remote_ops_merged(before, clock_before, now, ops, after, clock_now),
    ensures
        reflects(after.state, after.log),
        reflects(after.state, before.log + ops),
{
    let log = before.log;
    let unseen = lww::unseen(log, ops);
    let fresh = operation_log::stable_sorted(unseen);
    lemma_apply_all_reflects(before.state, log, fresh, now);
    op_sets::lemma_sorted_members(unseen);
    lemma_unseen_members(log, ops);
    op_sets::lemma_concat_members(log, fresh);
    op_sets::lemma_concat_members(log, ops);
    assert forall|op: OperationView| (log + fresh).contains(op) <==> (log + ops).contains(op) by {
        assert(unseen.contains(op) <==> fresh.contains(op));
        if ops.contains(op) && operation_log::known(log, op.version) {
            let k = choose|k: int| 0 <= k < log.len() && (#[trigger] log[k]).version == op.version;
            assert(log.contains(log[k]));
            assert((log + ops).contains(log[k]) && (log + ops).contains(op));
            assert(log[k] == op);
        }
    }
    lemma_reflects_members(after.state, log + fresh, log + ops);
    if ops.len() == 0 {
        assert(log + ops =~= log);
    } else {
        let merged = operation_log::merged_log(
            log,
            ops,
            operation_log::repeated(MergeStrategy::LastWriterWins, ops.len()),
        ).0;
        lemma_merged_members(log, ops);
        assert forall|op: OperationView| (log + ops).contains(op) <==> merged.contains(op) by {
        }
        lemma_reflects_members(after.state, log + ops, merged);
        assert forall|x: OperationView, y: OperationView|
            #![trigger merged.contains(x), merged.contains(y)]
            merged.contains(x) && merged.contains(y) && x.version == y.version implies x == y by {
            assert((log + ops).contains(x) && (log + ops).contains(y));
        }
        lemma_compaction_reflects(after.state, merged, after.log);
    }
}

/// Two nodes that exchange their logs agree, whatever they held before.
pub proof fn law_exchange_converges(
    a: LwwView,
    b: LwwView,
    clock_a: u64,
    clock_b: u64,
    now_a: u64,
    now_b: u64,
    after_a: LwwView,
    after_b: LwwView,
    next_a: u64,
    next_b: u64,
)
    requires
        reflects(a.state, a.log),
        reflects(b.state, b.log),
        one_per_version(a.log + b.log),
        lww::remote_ops_merged(a, clock_a, now_a, b.log, after_a, next_a),
        lww::remote_ops_merged(b, clock_b, now_b, a.log, after_b, next_b),
    ensures
        agree(after_a.state, after_b.state),
{
    let (ab, ba) = (a.log + b.log, b.log + a.log);
    op_sets::lemma_concat_members(a.log, b.log);
    op_sets::lemma_concat_members(b.log, a.log);
    assert forall|op: OperationView| ab.contains(op) <==> ba.contains(op) by {
    }
    assert forall|x: OperationView, y: OperationView|
        #![trigger ba.contains(x), ba.contains(y)]
        ba.contains(x) && ba.contains(y) && x.version == y.version implies x == y by {
        assert(ab.contains(x) && ab.contains(y));
    }
    law_log_tells_received_operations(a, clock_a, now_a, b.log, after_a, next_a);
    law_log_tells_received_operations(b, clock_b, now_b, a.log, after_b, next_b);
    law_same_operations_same_values(after_a.state, after_b.state, ab, ba);
}

/// A fresh node that receives the log of another one agrees with it.
pub proof fn law_delivery_converges(
    sender: LwwView,
    receiver: LwwView,
    clock: u64,
    now: u64,
    after: LwwView,
    next: u64,
)
    requires
        reflects(sender.state, sender.log),
        one_per_version(sender.log),
        receiver.state == empty_state(),
        receiver.log == Seq::<OperationView>::empty(),
        lww::remote_ops_merged(receiver, clock, now, sender.log, after, next),
    ensures
        agree(after.state, sender.state),
{
    assert(receiver.log + sender.log =~= sender.log);
    assert(reflects(receiver.state, receiver.log));
    law_log_tells_received_operations(receiver, clock, now, sender.log, after, next);
    law_same_operations_same_values(after.state, sender.state, sender.log, sender.log);
}

/// A node receives one list of operations after another: it starts as `nodes[0]`, and
/// `nodes[i + 1]` is what it is after `deliveries[i]`.
pub open spec fn receives(
    nodes: Seq<LwwView>,
    clocks: Seq<u64>,
    times: Seq<u64>,
    deliveries: Seq<Seq<OperationView>>,
) -> bool {
    &&& nodes.len() == deliveries.len() + 1
    &&& clocks.len() == deliveries.len() + 1
    &&& times.len() == deliveries.len()
    &&& forall|i: int|
        0 <= i < deliveries.len() ==> lww::remote_ops_merged(
            nodes[i],
            clocks[i],
            times[i],
            #[trigger] deliveries[i],
            nodes[i + 1],
            clocks[i + 1],
        )
}

/// The deliveries but for the last one are deliveries too.
proof fn lemma_receives_part(
    nodes: Seq<LwwView>,
    clocks: Seq<u64>,
    times: Seq<u64>,
    deliveries: Seq<Seq<OperationView>>,
)
    requires
        receives(nodes, clocks, times, deliveries),
        deliveries.len() > 0,
    ensures
        receives(
            nodes.drop_last(),
            clocks.drop_last(),
            times.drop_last(),
            deliveries.drop_last(),
        ),
        nodes.drop_last().last() == nodes[deliveries.len() - 1],
        clocks.drop_last().last() == clocks[deliveries.len() - 1],
        deliveries.flatten() == deliveries.drop_last().flatten() + deliveries.last(),
        lww::remote_ops_merged(
            nodes[deliveries.len() - 1],
            clocks[deliveries.len() - 1],
            times[deliveries.len() - 1],
            deliveries.last(),
            nodes.last(),
            clocks.last(),
        ),
{
    let rest = deliveries.drop_last();
    assert(deliveries =~= rest.push(deliveries.last()));
    rest.lemma_flatten_push(deliveries.last());
    assert forall|i: int| 0 <= i < rest.len() implies lww::remote_ops_merged(
        nodes.drop_last()[i],
        clocks.drop_last()[i],
        times.drop_last()[i],
        #[trigger] rest[i],
        nodes.drop_last()[i + 1],
        clocks.drop_last()[i + 1],
    ) by {
        assert(rest[i] == deliveries[i]);
    }
    assert(deliveries[deliveries.len() - 1] == deliveries.last());
}

/// Merging and compacting a log invents no operation.
proof fn lemma_log_invents_nothing(
    before: LwwView,
    clock_before: u64,
    now: u64,
    ops: Seq<OperationView>,
    after: LwwView,
    clock_now: u64,
)
    requires
        lww::remote_ops_merged(before, clock_before, now, ops, after, clock_now),
    ensures
        forall|op: OperationView| #[trigger]
            after.log.contains(op) ==> before.log.contains(op) || ops.contains(op),
{
    if ops.len() > 0 {
        let strategies = operation_log::repeated(MergeStrategy::LastWriterWins, ops.len());
        let merged = operation_log::merged_log(before.log, ops, strategies).0;
        lemma_merged_invents_nothing(before.log, ops, strategies);
        assert forall|op: OperationView| #[trigger] after.log.contains(op) implies before.log.contains(
            op,
        ) || ops.contains(op) by {
            lemma_compact_entry(merged, after.log, op);
        }
    }
}

/// However many operations a node receives, and in however many lists, its state shows
/// of each key the newest of them all, and stays a reflection of its log.
pub proof fn law_deliveries_add_up(
    nodes: Seq<LwwView>,
    clocks: Seq<u64>,
    times: Seq<u64>,
    deliveries: Seq<Seq<OperationView>>,
)
    requires
        receives(nodes, clocks, times, deliveries),
        reflects(nodes[0].state, nodes[0].log),
        one_per_version(nodes[0].log + deliveries.flatten()),
    ensures
        reflects(nodes.last().state, nodes.last().log),
        reflects(nodes.last().state, nodes[0].log + deliveries.flatten()),
        forall|op: OperationView| #[trigger]
            nodes.last().log.contains(op) ==> (nodes[0].log + deliveries.flatten()).contains(op),
    decreases deliveries.len(),
{
    let base = nodes[0].log;
    let total = base + deliveries.flatten();
    if deliveries.len() == 0 {
        assert(deliveries =~= Seq::empty());
        assert(total =~= base);
    } else {
        let n = deliveries.len() as int;
        let rest = deliveries.drop_last();
        let ops = deliveries.last();
        let so_far = base + rest.flatten();
        lemma_receives_part(nodes, clocks, times, deliveries);
        assert(total =~= so_far + ops);
        op_sets::lemma_concat_members(so_far, ops);
        assert forall|x: OperationView, y: OperationView|
            #![trigger so_far.contains(x), so_far.contains(y)]
            so_far.contains(x) && so_far.contains(y) && x.version == y.version implies x == y by {
            assert(total.contains(x) && total.contains(y));
        }
        law_deliveries_add_up(
            nodes.drop_last(),
            clocks.drop_last(),
            times.drop_last(),
            rest,
        );
        let (before, after) = (nodes[n - 1], nodes[n]);
        op_sets::lemma_concat_members(before.log, ops);
        assert forall|x: OperationView, y: OperationView|
            #![trigger (before.log + ops).contains(x), (before.log + ops).contains(y)]
            (before.log + ops).contains(x) && (before.log + ops).contains(y) && x.version
                == y.version implies x == y by {
            assert(total.contains(x) && total.contains(y));
        }
        law_log_tells_received_operations(
            before,
            clocks[n - 1],
            times[n - 1],
            ops,
            after,
            clocks[n],
        );
        lemma_log_invents_nothing(before, clocks[n - 1], times[n - 1], ops, after, clocks[n]);
        let unseen = lww::unseen(before.log, ops);
        let fresh = operation_log::stable_sorted(unseen);
        lemma_apply_all_reflects(before.state, so_far, fresh, times[n - 1]);
        op_sets::lemma_sorted_members(unseen);
        lemma_unseen_members(before.log, ops);
        op_sets::lemma_concat_members(so_far, fresh);
        assert forall|op: OperationView| (so_far + fresh).contains(op) <==> total.contains(op) by {
            assert(unseen.contains(op) <==> fresh.contains(op));
            if ops.contains(op) && operation_log::known(before.log, op.version) {
                let k = choose|k: int|
                    0 <= k < before.log.len() && (#[trigger] before.log[k]).version == op.version;
                assert(before.log.contains(before.log[k]));
                assert(so_far.contains(before.log[k]));
                assert(total.contains(before.log[k]) && total.contains(op));
                assert(before.log[k] == op);
            }
        }
        lemma_reflects_members(after.state, so_far + fresh, total);
    }
}

/// No operation is ahead of the clock.
pub open spec fn clock_covers(clock: u64, ops: Seq<OperationView>) -> bool {
    forall|op: OperationView| #[trigger] ops.contains(op) ==> op.version.timestamp <= clock
}

/// A clock that observes operations covers them, and does not go back.
pub proof fn lemma_clock_after(clock: u64, ops: Seq<OperationView>)
    ensures
        clock <= lww::clock_after(clock, ops),
        clock_covers(lww::clock_after(clock, ops), ops),
    decreases ops.len(),
{
    if ops.len() > 0 {
        let rest = ops.drop_last();
        lemma_clock_after(clock, rest);
        op_sets::lemma_push_members(rest, ops.last());
        assert(ops =~= rest.push(ops.last()));
    }
}

/// A clock that covers the log of a node covers what the node receives and the log
/// that comes of it.
proof fn lemma_clock_covers_received(
    before: LwwView,
    clock_before: u64,
    now: u64,
    ops: Seq<OperationView>,
    after: LwwView,
    clock_now: u64,
)
    requires
        clock_covers(clock_before, before.log),
        lww::remote_ops_merged(before, clock_before, now, ops, after, clock_now),
    ensures
        clock_before <= clock_now,
        clock_covers(clock_now, ops),
        clock_covers(clock_now, after.log),
{
    let unseen = lww::unseen(before.log, ops);
    let fresh = operation_log::stable_sorted(unseen);
    lemma_clock_after(clock_before, fresh);
    op_sets::lemma_sorted_members(unseen);
    lemma_unseen_members(before.log, ops);
    assert forall|op: OperationView| #[trigger] ops.contains(op) implies op.version.timestamp
        <= clock_now by {
        if operation_log::known(before.log, op.version) {
            let k = choose|k: int|
                0 <= k < before.log.len() && (#[trigger] before.log[k]).version == op.version;
            assert(before.log.contains(before.log[k]));
        } else {
            assert(unseen.contains(op));
            assert(fresh.contains(op));
        }
    }
    lemma_log_invents_nothing(before, clock_before, now, ops, after, clock_now);
}

/// The clock of a node passes every operation that it is given, those that its log
/// knew included: what the node writes next is newer than all of them, unless the
/// clock is at its maximum.
pub proof fn law_clock_passes_deliveries(
    nodes: Seq<LwwView>,
    clocks: Seq<u64>,
    times: Seq<u64>,
    deliveries: Seq<Seq<OperationView>>,
)
    requires
        receives(nodes, clocks, times, deliveries),
        clock_covers(clocks[0], nodes[0].log),
    ensures
        clocks[0] <= clocks.last(),
        clock_covers(clocks.last(), deliveries.flatten()),
        clock_covers(clocks.last(), nodes.last().log),
        forall|op: OperationView| #[trigger]
            deliveries.flatten().contains(op) ==> op.version.timestamp < replica::next_timestamp(
                clocks.last(),
            ) || clocks.last() == u64::MAX,
    decreases deliveries.len(),
{
    if deliveries.len() == 0 {
        assert(deliveries =~= Seq::empty());
    } else {
        let n = deliveries.len() as int;
        let (rest, ops) = (deliveries.drop_last(), deliveries.last());
        lemma_receives_part(nodes, clocks, times, deliveries);
        law_clock_passes_deliveries(
            nodes.drop_last(),
            clocks.drop_last(),
            times.drop_last(),
            rest,
        );
        lemma_clock_covers_received(
            nodes[n - 1],
            clocks[n - 1],
            times[n - 1],
            ops,
            nodes.last(),
            clocks.last(),
        );
        op_sets::lemma_concat_members(rest.flatten(), ops);
    }
}

/// A clock rises by no more than one for each operation that it observes, above the
/// greatest timestamp.
proof fn lemma_clock_bound(clock: u64, ops: Seq<OperationView>, top: u64)
    requires
        clock <= top,
        clock_covers(top, ops),
    ensures
        lww::clock_after(clock, ops) <= top + ops.len(),
    decreases ops.len(),
{
    if ops.len() > 0 {
        let rest = ops.drop_last();
        op_sets::lemma_push_members(rest, ops.last());
        assert(ops =~= rest.push(ops.last()));
        assert forall|op: OperationView| #[trigger] rest.contains(op) implies op.version.timestamp
            <= top by {
            assert(ops.contains(op));
        }
        lemma_clock_bound(clock, rest, top);
        assert(ops.contains(ops.last()));
    }
}

/// The same of a clock whose node receives operations.
proof fn lemma_clock_step_bound(
    before: LwwView,
    clock_before: u64,
    now: u64,
    ops: Seq<OperationView>,
    after: LwwView,
    clock_now: u64,
    top: u64,
)
    requires
        clock_before <= top,
        clock_covers(top, ops),
        lww::remote_ops_merged(before, clock_before, now, ops, after, clock_now),
    ensures
        clock_now <= top + ops.len(),
{
    let unseen = lww::unseen(before.log, ops);
    let fresh = operation_log::stable_sorted(unseen);
    op_sets::lemma_sorted_members(unseen);
    lemma_unseen_members(before.log, ops);
    assert forall|op: OperationView| #[trigger] fresh.contains(op) implies op.version.timestamp
        <= top by {
        assert(unseen.contains(op));
        assert(ops.contains(op));
    }
    lemma_clock_bound(clock_before, fresh, top);
    operation_log::lemma_stable_sorted(unseen);
    ops.lemma_filter_len(|op: OperationView| !operation_log::known(before.log, op.version));
}

/// The same of a clock whose node receives one list after another.
proof fn lemma_clock_deliveries_bound(
    nodes: Seq<LwwView>,
    clocks: Seq<u64>,
    times: Seq<u64>,
    deliveries: Seq<Seq<OperationView>>,
    top: u64,
)
    requires
        receives(nodes, clocks, times, deliveries),
        clocks[0] <= top,
        clock_covers(top, deliveries.flatten()),
        top + deliveries.flatten().len() < u64::MAX,
    ensures
        clocks.last() <= top + deliveries.flatten().len(),
    decreases deliveries.len(),
{
    if deliveries.len() > 0 {
        let n = deliveries.len() as int;
        let (rest, ops) = (deliveries.drop_last(), deliveries.last());
        let flat = deliveries.flatten();
        lemma_receives_part(nodes, clocks, times, deliveries);
        op_sets::lemma_concat_members(rest.flatten(), ops);
        assert(flat.len() == rest.flatten().len() + ops.len());
        let reached = (top + rest.flatten().len()) as u64;
        assert forall|op: OperationView| #[trigger]
            rest.flatten().contains(op) implies op.version.timestamp <= top by {
            assert(flat.contains(op));
        }
        assert forall|op: OperationView| #[trigger] ops.contains(op) implies op.version.timestamp
            <= reached by {
            assert(flat.contains(op));
        }
        lemma_clock_deliveries_bound(
            nodes.drop_last(),
            clocks.drop_last(),
            times.drop_last(),
            rest,
            top,
        );
        lemma_clock_step_bound(
            nodes[n - 1],
            clocks[n - 1],
            times[n - 1],
            ops,
            nodes.last(),
            clocks.last(),
            reached,
        );
    }
}

/// The clock does not come to its maximum for as long as the timestamps that it is
/// given leave room for one step per delivered operation. What the node writes next is
/// then newer than everything that it was given.
pub proof fn law_clock_keeps_room(
    nodes: Seq<LwwView>,
    clocks: Seq<u64>,
    times: Seq<u64>,
    deliveries: Seq<Seq<OperationView>>,
    top: u64,
)
    requires
        receives(nodes, clocks, times, deliveries),
        clock_covers(clocks[0], nodes[0].log),
        clocks[0] <= top,
        clock_covers(top, deliveries.flatten()),
        top + deliveries.flatten().len() < u64::MAX,
    ensures
        clocks.last() <= top + deliveries.flatten().len(),
        forall|op: OperationView| #[trigger]
            deliveries.flatten().contains(op) ==> op.version.timestamp < replica::next_timestamp(
                clocks.last(),
            ),
{
    law_clock_passes_deliveries(nodes, clocks, times, deliveries);
    lemma_clock_deliveries_bound(nodes, clocks, times, deliveries, top);
}

/// A node that starts without keys gives of each key the value of the newest operation
/// that it was given, or none if that is a removal or if there is no operation on the
/// key. It does not matter in which order the operations came, how they were split
/// into lists, and how often each of them came.
pub proof fn law_fresh_node_shows_newest(
    nodes: Seq<LwwView>,
    clocks: Seq<u64>,
    times: Seq<u64>,
    deliveries: Seq<Seq<OperationView>>,
    ops: Seq<OperationView>,
    key: Seq<char>,
)
    requires
        receives(nodes, clocks, times, deliveries),
        nodes[0].state == empty_state(),
        nodes[0].log == Seq::<OperationView>::empty(),
        op_sets::same_members(deliveries.flatten(), ops),
        one_per_version(ops),
    ensures
        forall|op: OperationView| #[trigger]
            newest_among(ops, op) && op.key == key ==> kv_store::kv_get(
                nodes.last().state.kv,
                key,
            ) == op.value,
        !operation_log::mentions(ops, key) ==> kv_store::kv_get(nodes.last().state.kv, key) is None,
        operation_log::mentions(ops, key) ==> exists|op: OperationView| #[trigger]
            newest_among(ops, op) && op.key == key,
{
    let flat = deliveries.flatten();
    let s = nodes.last().state;
    assert(nodes[0].log + flat =~= flat);
    assert forall|x: OperationView, y: OperationView|
        #![trigger flat.contains(x), flat.contains(y)]
        flat.contains(x) && flat.contains(y) && x.version == y.version implies x == y by {
        assert(ops.contains(x) && ops.contains(y));
    }
    assert(reflects(nodes[0].state, nodes[0].log));
    law_deliveries_add_up(nodes, clocks, times, deliveries);
    lemma_reflects_members(s, flat, ops);
    if operation_log::mentions(ops, key) {
        let i = choose|i: int| 0 <= i < ops.len() && (#[trigger] ops[i]).key == key;
        assert(ops.contains(ops[i]));
        assert(s.table.contains_key(key));
    }
    if s.table.contains_key(key) {
        let n = choose|n: OperationView| #[trigger]
            newest_among(ops, n) && n.key == key && shows(s, n);
        assert forall|op: OperationView| #[trigger]
            newest_among(ops, op) && op.key == key implies kv_store::kv_get(s.kv, key)
            == op.value by {
            assert(!beats(op, n) && !beats(n, op));
            assert(op.version == n.version);
            assert(op == n);
        }
        let k = choose|k: int| 0 <= k < ops.len() && ops[k] == n;
        assert(ops[k].key == key);
    }
}

/// Two nodes that were given the same operations agree, however the operations were
/// split into lists, in whatever order they came, and however often.
pub proof fn law_same_deliveries_agree(
    nodes_a: Seq<LwwView>,
    clocks_a: Seq<u64>,
    times_a: Seq<u64>,
    deliveries_a: Seq<Seq<OperationView>>,
    nodes_b: Seq<LwwView>,
    clocks_b: Seq<u64>,
    times_b: Seq<u64>,
    deliveries_b: Seq<Seq<OperationView>>,
)
    requires
        receives(nodes_a, clocks_a, times_a, deliveries_a),
        receives(nodes_b, clocks_b, times_b, deliveries_b),
        reflects(nodes_a[0].state, nodes_a[0].log),
        reflects(nodes_b[0].state, nodes_b[0].log),
        op_sets::same_members(
            nodes_a[0].log + deliveries_a.flatten(),
            nodes_b[0].log + deliveries_b.flatten(),
        ),
        one_per_version(nodes_a[0].log + deliveries_a.flatten()),
    ensures
        agree(nodes_a.last().state, nodes_b.last().state),
{
    let a = nodes_a[0].log + deliveries_a.flatten();
    let b = nodes_b[0].log + deliveries_b.flatten();
    assert forall|x: OperationView, y: OperationView|
        #![trigger b.contains(x), b.contains(y)]
        b.contains(x) && b.contains(y) && x.version == y.version implies x == y by {
        assert(a.contains(x) && a.contains(y));
    }
    law_deliveries_add_up(nodes_a, clocks_a, times_a, deliveries_a);
    law_deliveries_add_up(nodes_b, clocks_b, times_b, deliveries_b);
    law_same_operations_same_values(nodes_a.last().state, nodes_b.last().state, a, b);
}

/// What a node was given before, all of it or a part, changes nothing when it is
/// delivered again, not even the change counter. Only the clock may advance.
pub proof fn law_redelivery_is_no_change(
    nodes: Seq<LwwView>,
    clocks: Seq<u64>,
    times: Seq<u64>,
    deliveries: Seq<Seq<OperationView>>,
    later: u64,
    again: Seq<OperationView>,
    after: LwwView,
    clock_now: u64,
)
    requires
        receives(nodes, clocks, times, deliveries),
        reflects(nodes[0].state, nodes[0].log),
        one_per_version(nodes[0].log + deliveries.flatten()),
        forall|op: OperationView| #[trigger]
            again.contains(op) ==> (nodes[0].log + deliveries.flatten()).contains(op),
        lww::remote_ops_merged(nodes.last(), clocks.last(), later, again, after, clock_now),
    ensures
        after.state == nodes.last().state,
{
    law_deliveries_add_up(nodes, clocks, times, deliveries);
    lemma_known_batch(
        nodes.last(),
        clocks.last(),
        later,
        nodes[0].log + deliveries.flatten(),
        again,
        after,
        clock_now,
    );
}

/// Operations that the state reflects change nothing when they arrive.
proof fn lemma_known_batch(
    mid: LwwView,
    clock_mid: u64,
    later: u64,
    all: Seq<OperationView>,
    again: Seq<OperationView>,
    after: LwwView,
    clock_now: u64,
)
    requires
        reflects(mid.state, all),
        forall|op: OperationView| #[trigger] again.contains(op) ==> all.contains(op),
        lww::remote_ops_merged(mid, clock_mid, later, again, after, clock_now),
    ensures
        after.state == mid.state,
{
    let unseen = lww::unseen(mid.log, again);
    let fresh = operation_log::stable_sorted(unseen);
    op_sets::lemma_sorted_members(unseen);
    lemma_unseen_members(mid.log, again);
    assert forall|i: int| 0 <= i < fresh.len() implies lww_laws::settled(
        mid.state,
        #[trigger] fresh[i],
    ) by {
        let op = fresh[i];
        assert(fresh.contains(op));
        assert(unseen.contains(op));
        assert(all.contains(op));
        assert(mid.state.table.contains_key(op.key));
        let n = choose|n: OperationView| #[trigger]
            newest_among(all, n) && n.key == op.key && shows(mid.state, n);
        assert(!beats(op, n));
    }
    lww_laws::law_settled_changes_nothing(mid.state, fresh, later);
}

/// A batch that a node has absorbed already is no change, not even of the change
/// counter: what is delivered again, all of it or a part, changes nothing.
pub proof fn law_absorbed_batch_is_no_change(
    before: LwwView,
    clock_before: u64,
    now: u64,
    ops: Seq<OperationView>,
    mid: LwwView,
    clock_mid: u64,
    later: u64,
    again: Seq<OperationView>,
    after: LwwView,
    clock_now: u64,
)
    requires
        reflects(before.state, before.log),
        one_per_version(before.log + ops),
        lww::remote_ops_merged(before, clock_before, now, ops, mid, clock_mid),
        forall|op: OperationView| #[trigger] again.contains(op) ==> ops.contains(op),
        lww::remote_ops_merged(mid, clock_mid, later, again, after, clock_now),
    ensures
        after.state == mid.state,
{
    law_log_tells_received_operations(before, clock_before, now, ops, mid, clock_mid);
    op_sets::lemma_concat_members(before.log, ops);
    lemma_known_batch(mid, clock_mid, later, before.log + ops, again, after, clock_now);
}

// ---------------------------------------------------------------------------
// Watermarks
// ---------------------------------------------------------------------------
/// The versions that a state knows, as a watermark.
pub open spec fn known_versions(s: LwwState) -> Map<Seq<char>, CrdtVersion> {
    Map::new(
        |key: Seq<char>| s.table.contains_key(key),
        |key: Seq<char>| (s.table[key].version.timestamp, s.table[key].version.replica_id),
    )
}

/// A watermark of the operations that were merged advances in lockstep with the merge:
/// it acknowledges of each key the version that the state shows.
pub proof fn law_watermark_follows_merge(s: LwwState, ops: Seq<OperationView>)
    requires
        reflects(s, ops),
    ensures
        watermark::advance_all(Map::empty(), watermark::stamps(ops)) == known_versions(s),
{
    let acked = watermark::advance_all(Map::empty(), watermark::stamps(ops));
    lemma_acked_is_newest(ops);
    assert forall|key: Seq<char>| #[trigger] acked.contains_key(key) <==> s.table.contains_key(
        key,
    ) by {
        if acked.contains_key(key) {
            let o = choose|o: OperationView| #[trigger]
                ops.contains(o) && o.key == key && acked[key] == watermark::stamp(o).1;
            assert(ops.contains(o));
        }
        if s.table.contains_key(key) {
            let n = choose|n: OperationView| #[trigger]
                newest_among(ops, n) && n.key == key && shows(s, n);
            assert(ops.contains(n));
        }
    }
    assert forall|key: Seq<char>| #[trigger] acked.contains_key(key) implies acked[key]
        == known_versions(s)[key] by {
        let o = choose|o: OperationView| #[trigger]
            ops.contains(o) && o.key == key && acked[key] == watermark::stamp(o).1;
        let n = choose|n: OperationView| #[trigger]
            newest_among(ops, n) && n.key == key && shows(s, n);
        assert(ops.contains(n));
        assert(!beats(o, n));
        assert(!watermark::older(acked[key], watermark::stamp(n).1));
    }
    assert(acked =~= known_versions(s));
}

/// What is acknowledged of a key is the version of an operation on it, and none is newer.
proof fn lemma_acked_is_newest(ops: Seq<OperationView>)
    ensures
        ({
            let acked = watermark::advance_all(Map::empty(), watermark::stamps(ops));
            &&& forall|o: OperationView| #[trigger]
                ops.contains(o) ==> acked.contains_key(o.key) && !watermark::older(
                    acked[o.key],
                    watermark::stamp(o).1,
                )
            &&& forall|key: Seq<char>| #[trigger]
                acked.contains_key(key) ==> exists|o: OperationView| #[trigger]
                    ops.contains(o) && o.key == key && acked[key] == watermark::stamp(o).1
        }),
    decreases ops.len(),
{
    let acked = watermark::advance_all(Map::empty(), watermark::stamps(ops));
    if ops.len() > 0 {
        let rest = ops.drop_last();
        let last = ops.last();
        lemma_acked_is_newest(rest);
        op_sets::lemma_push_members(rest, last);
        assert(ops =~= rest.push(last));
        assert(watermark::stamps(ops).drop_last() =~= watermark::stamps(rest));
        assert(watermark::stamps(ops).last() == watermark::stamp(last));
        let before = watermark::advance_all(Map::empty(), watermark::stamps(rest));
        assert forall|key: Seq<char>| #[trigger] acked.contains_key(key) implies exists|
            o: OperationView,
        | #[trigger] ops.contains(o) && o.key == key && acked[key] == watermark::stamp(o).1 by {
            if key == last.key && (!before.contains_key(key) || watermark::older(
                before[key],
                watermark::stamp(last).1,
            )) {
                assert(ops.contains(last));
            } else {
                assert(before.contains_key(key) && acked[key] == before[key]);
                let o = choose|o: OperationView| #[trigger]
                    rest.contains(o) && o.key == key && before[key] == watermark::stamp(o).1;
                assert(ops.contains(o));
            }
        }
    }
}

/// A watermark hides only what the peer has: an operation that is not sent, because the
/// peer acknowledged no older version of its key, would change nothing there.
pub proof fn law_hidden_operation_is_settled(
    s: LwwState,
    ops: Seq<OperationView>,
    acked: Map<Seq<char>, CrdtVersion>,
    op: OperationView,
)
    requires
        reflects(s, ops),
        one_per_version(ops.push(op)),
        forall|key: Seq<char>| #[trigger]
            acked.contains_key(key) ==> known_versions(s).contains_key(key) && !watermark::older(
                known_versions(s)[key],
                acked[key],
            ),
        !watermark::must_send(acked, op),
    ensures
        lww_laws::settled(s, op),
{
    assert(acked.contains_key(op.key));
    assert(s.table.contains_key(op.key));
    let n = choose|n: OperationView| #[trigger]
        newest_among(ops, n) && n.key == op.key && shows(s, n);
    op_sets::lemma_push_members(ops, op);
    assert(ops.push(op).contains(n) && ops.push(op).contains(op));
}

} // verus!
