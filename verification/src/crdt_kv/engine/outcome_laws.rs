//! What one operation does to a key, told in times, replica ids and values.

use vstd::prelude::*;

use super::super::epoch_laws;
use super::super::epoch_max_wins;
use super::super::epoch_max_wins::{EpochCount, LivePoint, RateLimitVersion, ShardView};
use super::super::frontier;
use super::super::operation::OperationView;
use super::super::operation_log;
use super::lww;
use super::lww::{LwwState, LwwView};
use super::metadata;
use super::metadata::ValueMetadata;
use super::rate_limit;
use super::rate_limit::{RateLimitEngineView, RateLimitView, ShardEntryView};

verus! {

/// `v` is newer than `w`: its time is later, or its time is the same and its replica has
/// the greater id.
pub open spec fn is_newer(v: RateLimitVersion, w: RateLimitVersion) -> bool {
    v.timestamp > w.timestamp || (v.timestamp == w.timestamp && v.replica_id.bits
        > w.replica_id.bits)
}

/// `after` is one change ahead of `before`; the counter wraps around.
pub open spec fn one_change(before: u64, after: u64) -> bool {
    if before == 0xffff_ffff_ffff_ffff {
        after == 0
    } else {
        after == before + 1
    }
}

// ---------------------------------------------------------------------------
// Last writer wins
// ---------------------------------------------------------------------------
/// A write to a key that is not known, or known in an older version only, is what a read
/// gives from then on, and counts as one change. Any other write changes nothing.
pub proof fn law_newer_write_is_read(
    s: LwwState,
    key: Seq<char>,
    value: Seq<u8>,
    version: RateLimitVersion,
    now: u64,
)
    ensures
        ({
            let t = lww::lww_insert(s, key, value, version, now);
            let wins = !s.table.contains_key(key) || is_newer(version, s.table[key].version);
            &&& wins ==> {
                &&& t.kv.live.contains_key(key) && t.kv.live[key] == value
                &&& t.table.contains_key(key)
                &&& t.table[key] == (ValueMetadata {
                    version,
                    is_tombstone: false,
                    created_at: now,
                })
                &&& one_change(s.kv.generation, t.kv.generation)
            }
            &&& !wins ==> t == s
        }),
{
}

/// A removal of a key that is not known, or known in an older version only, or written in
/// the same version, leaves the key without a value and is remembered with its time. Any
/// other removal changes nothing. It counts as a change only where a value goes.
pub proof fn law_newer_removal_is_final(
    s: LwwState,
    key: Seq<char>,
    version: RateLimitVersion,
    now: u64,
)
    ensures
        ({
            let t = lww::lww_remove(s, key, version, now);
            let wins = !s.table.contains_key(key) || is_newer(version, s.table[key].version) || (
            s.table[key].version == version && !s.table[key].is_tombstone);
            &&& wins ==> {
                &&& !t.kv.live.contains_key(key)
                &&& t.table.contains_key(key)
                &&& t.table[key] == (ValueMetadata {
                    version,
                    is_tombstone: true,
                    created_at: now,
                })
                &&& s.kv.live.contains_key(key) ==> one_change(s.kv.generation, t.kv.generation)
                &&& !s.kv.live.contains_key(key) ==> t.kv == s.kv
            }
            &&& !wins ==> t == s
        }),
{
}

/// After a list of operations a key is known in a version that is none of theirs only if
/// it was known in it before, and in none that is older than one of theirs.
pub proof fn law_known_version_is_newest(
    s: LwwState,
    ops: Seq<OperationView>,
    now: u64,
    op: OperationView,
)
    requires
        ops.contains(op),
    ensures
        ({
            let t = lww::lww_apply_all(s, ops, now);
            &&& t.table.contains_key(op.key)
            &&& !is_newer(op.version, t.table[op.key].version)
            &&& s.table.contains_key(op.key) ==> !is_newer(
                s.table[op.key].version,
                t.table[op.key].version,
            )
        }),
    decreases ops.len(),
{
    let rest = ops.drop_last();
    let k = choose|k: int| 0 <= k < ops.len() && ops[k] == op;
    lemma_versions_only_grow(s, rest, now, op.key);
    if k < ops.len() - 1 {
        assert(rest[k] == op);
        law_known_version_is_newest(s, rest, now, op);
    }
}

/// What is known of a key only gets newer.
proof fn lemma_versions_only_grow(
    s: LwwState,
    ops: Seq<OperationView>,
    now: u64,
    key: Seq<char>,
)
    ensures
        ({
            let t = lww::lww_apply_all(s, ops, now);
            s.table.contains_key(key) ==> t.table.contains_key(key) && !is_newer(
                s.table[key].version,
                t.table[key].version,
            )
        }),
    decreases ops.len(),
{
    if ops.len() > 0 {
        lemma_versions_only_grow(s, ops.drop_last(), now, key);
    }
}

/// A clock that has observed a list of operations is ahead of each of them and of where it
/// was, as long as there are timestamps left, and no further ahead than one step for each.
pub proof fn law_clock_is_ahead(clock: u64, ops: Seq<OperationView>, top: u64)
    requires
        clock <= top,
        forall|i: int| 0 <= i < ops.len() ==> (#[trigger] ops[i]).version.timestamp <= top,
    ensures
        ops.len() == 0 ==> lww::clock_after(clock, ops) == clock,
        lww::clock_after(clock, ops) >= clock,
        top + ops.len() <= u64::MAX ==> lww::clock_after(clock, ops) <= top + ops.len(),
        forall|i: int|
            0 <= i < ops.len() ==> {
                ||| (#[trigger] ops[i]).version.timestamp < lww::clock_after(clock, ops)
                ||| lww::clock_after(clock, ops) == u64::MAX
            },
        top + ops.len() <= u64::MAX && ops.len() > 0 ==> lww::clock_after(clock, ops) > clock,
    decreases ops.len(),
{
    if ops.len() > 0 {
        let rest = ops.drop_last();
        assert forall|i: int| 0 <= i < rest.len() implies (#[trigger] rest[i]).version.timestamp
            <= top by {
            assert(rest[i] == ops[i]);
        }
        law_clock_is_ahead(clock, rest, top);
        assert(ops[ops.len() - 1] == ops.last());
        assert forall|i: int| 0 <= i < ops.len() implies {
            ||| (#[trigger] ops[i]).version.timestamp < lww::clock_after(clock, ops)
            ||| lww::clock_after(clock, ops) == u64::MAX
        } by {
            if i < rest.len() {
                assert(rest[i] == ops[i]);
            }
        }
    }
}

/// What is applied of an incoming list is exactly the operations whose time and replica no
/// entry of the log has.
pub proof fn law_unseen_is_what_the_log_lacks(
    log: Seq<OperationView>,
    ops: Seq<OperationView>,
    op: OperationView,
)
    ensures
        lww::unseen(log, ops).contains(op) <==> ops.contains(op) && forall|i: int|
            0 <= i < log.len() ==> (#[trigger] log[i]).version.timestamp != op.version.timestamp
                || log[i].version.replica_id.bits != op.version.replica_id.bits,
    decreases ops.len(),
{
    let keep = |o: OperationView| !operation_log::known(log, o.version);
    lemma_filter_members(ops, keep, op);
    if operation_log::known(log, op.version) {
        let i = choose|i: int| 0 <= i < log.len() && (#[trigger] log[i]).version == op.version;
        assert(log[i].version.timestamp == op.version.timestamp);
    } else {
        assert forall|i: int| 0 <= i < log.len() implies (#[trigger] log[i]).version.timestamp
            != op.version.timestamp || log[i].version.replica_id.bits
            != op.version.replica_id.bits by {
            assert(log[i].version != op.version);
        }
    }
}

proof fn lemma_filter_members(
    ops: Seq<OperationView>,
    keep: spec_fn(OperationView) -> bool,
    op: OperationView,
)
    ensures
        ops.filter(keep).contains(op) <==> ops.contains(op) && keep(op),
    decreases ops.len(),
{
    reveal(Seq::filter);
    if ops.len() > 0 {
        let rest = ops.drop_last();
        lemma_filter_members(rest, keep, op);
        let (a, b) = (rest.filter(keep), ops.filter(keep));
        if a.contains(op) {
            let k = choose|k: int| 0 <= k < a.len() && a[k] == op;
            assert(b[k] == op);
        }
        if ops.contains(op) {
            let k = choose|k: int| 0 <= k < ops.len() && ops[k] == op;
            if k < rest.len() {
                assert(rest[k] == op);
            } else if keep(op) {
                assert(b[b.len() - 1] == op);
            }
        }
        if rest.contains(op) {
            let k = choose|k: int| 0 <= k < rest.len() && rest[k] == op;
            assert(ops[k] == op);
        }
        if b.contains(op) {
            let k = choose|k: int| 0 <= k < b.len() && b[k] == op;
            if k < a.len() {
                assert(a[k] == op);
            } else {
                assert(ops[ops.len() - 1] == op);
            }
        }
    }
}

// ---------------------------------------------------------------------------
// Rate limits
// ---------------------------------------------------------------------------
/// A removal of a key that is not known makes it a tombstone of this moment, with nothing
/// but the version of the removal.
pub proof fn law_unknown_key_is_removed(
    s: RateLimitView,
    key: Seq<char>,
    version: RateLimitVersion,
    now: u64,
)
    requires
        !s.entries.contains_key(key),
    ensures
        ({
            let t = rate_limit::rate_limit_apply(
                s,
                OperationView { key, value: None, version },
                now,
            );
            &&& t.entries.contains_key(key)
            &&& !t.entries[key].live
            &&& t.entries[key].tombstoned_at == Some(now)
            &&& t.entries[key].state.points.len() == 0
            &&& t.entries[key].state.tombstone == Some(version)
            &&& one_change(s.generation, t.generation)
        }),
{
}

/// A removal that meets a tombstone replaces it and starts its time anew exactly where it
/// is newer. Otherwise it changes nothing.
pub proof fn law_removal_meets_tombstone(
    s: RateLimitView,
    key: Seq<char>,
    version: RateLimitVersion,
    now: u64,
)
    requires
        s.entries.contains_key(key),
        rate_limit::entry_wf(s.entries[key]),
        !s.entries[key].live,
    ensures
        ({
            let t = rate_limit::rate_limit_apply(
                s,
                OperationView { key, value: None, version },
                now,
            );
            let held = s.entries[key].state.tombstone->0;
            &&& is_newer(version, held) ==> {
                &&& t.entries.contains_key(key)
                &&& !t.entries[key].live
                &&& t.entries[key].tombstoned_at == Some(now)
                &&& t.entries[key].state.tombstone == Some(version)
                &&& one_change(s.generation, t.generation)
            }
            &&& !is_newer(version, held) ==> t == s
        }),
{
    let e = s.entries[key];
    let o = epoch_max_wins::tombstone_state(version);
    let m = epoch_max_wins::merge_states(e.state, o);
    assert(e.state.points + o.points =~= Seq::empty());
    reveal(Seq::filter);
    frontier::lemma_frontier_empty();
    assert(m.points =~= Seq::empty());
    assert(e.state.points =~= Seq::empty());
    if !is_newer(version, e.state.tombstone->0) {
        assert(m =~= e.state);
        assert(rate_limit::merged_entry(e, o, now) =~= e);
        let t = rate_limit::rate_limit_apply(s, OperationView { key, value: None, version }, now);
        assert(t.entries =~= s.entries);
    }
}

/// A removal that is newer than every point of a live key makes it a tombstone of this
/// moment. Points that are newer than the removal stay, and the key stays live.
pub proof fn law_removal_meets_points(
    s: RateLimitView,
    key: Seq<char>,
    version: RateLimitVersion,
    now: u64,
    p: LivePoint,
)
    requires
        s.entries.contains_key(key),
        rate_limit::entry_wf(s.entries[key]),
        s.entries[key].live,
        s.entries[key].state.points.contains(p),
        epoch_laws::written_after(p, s.entries[key].state.tombstone),
    ensures
        ({
            let e = s.entries[key];
            let t = rate_limit::rate_limit_apply(
                s,
                OperationView { key, value: None, version },
                now,
            );
            &&& t.entries.contains_key(key)
            &&& is_newer(p.version, version) ==> t.entries[key].live
                && t.entries[key].tombstoned_at is None
            &&& (forall|q: LivePoint| #[trigger]
                e.state.points.contains(q) ==> !is_newer(q.version, version)) ==> {
                &&& !t.entries[key].live
                &&& t.entries[key].tombstoned_at == Some(now)
                &&& t.entries[key].state.points.len() == 0
            }
        }),
{
    let e = s.entries[key];
    let o = epoch_max_wins::tombstone_state(version);
    let m = epoch_max_wins::merge_states(e.state, o);
    epoch_laws::law_merge_keeps_what_counts(e.state, o, p, p);
    if is_newer(p.version, version) {
        assert(epoch_laws::live_in(e.state, o, p));
    }
    if m.points.len() > 0 {
        let q = m.points[0];
        assert(m.points.contains(q));
        epoch_laws::law_merge_keeps_what_counts(e.state, o, q, q);
        assert(epoch_laws::live_in(e.state, o, q));
        assert(e.state.points.contains(q));
    }
}

/// A payload written to a key that is not known is the one point of that key, with the
/// version of the write, and is what a read gives.
pub proof fn law_first_write_is_read(
    s: RateLimitView,
    key: Seq<char>,
    value: EpochCount,
    version: RateLimitVersion,
    now: u64,
)
    requires
        !s.entries.contains_key(key),
    ensures
        ({
            let op = OperationView {
                key,
                value: Some(epoch_max_wins::payload(value)),
                version,
            };
            let t = rate_limit::rate_limit_apply(s, op, now);
            &&& t.entries.contains_key(key)
            &&& t.entries[key].live
            &&& t.entries[key].tombstoned_at is None
            &&& t.entries[key].state.points == seq![LivePoint { value, version }]
            &&& t.entries[key].state.tombstone is None
            &&& rate_limit::live_bytes(t.entries, key) matches Some(d)
            &&& epoch_max_wins::decoded_value(d) == Some(value)
            &&& one_change(s.generation, t.generation)
        }),
{
    epoch_max_wins::law_payload_round_trip(value);
    epoch_max_wins::law_payload_is_no_shard(epoch_max_wins::payload(value));
    let o = epoch_max_wins::point_state(value, version);
    epoch_max_wins::lemma_encoded_shard_len(o);
    epoch_max_wins::law_decode_reads_shard(o);
    epoch_max_wins::lemma_greatest_value(o.points);
    assert(o.points =~= seq![LivePoint { value, version }]);
}

/// A payload written after the tombstones of a known key is read from then on, unless the
/// key has a point of a greater epoch, or of a greater count in the same epoch: then that
/// is read. A live key has no time of removal.
pub proof fn law_write_is_read(
    s: RateLimitView,
    key: Seq<char>,
    value: EpochCount,
    version: RateLimitVersion,
    now: u64,
)
    requires
        s.entries.contains_key(key),
        epoch_laws::written_after(LivePoint { value, version }, s.entries[key].state.tombstone),
        epoch_max_wins::encoded_shard(
            epoch_max_wins::merge_states(
                s.entries[key].state,
                epoch_max_wins::point_state(value, version),
            ),
        ).len() <= 65536,
    ensures
        ({
            let op = OperationView {
                key,
                value: Some(epoch_max_wins::payload(value)),
                version,
            };
            let t = rate_limit::rate_limit_apply(s, op, now);
            &&& t.entries.contains_key(key)
            &&& t.entries[key].live
            &&& t.entries[key].tombstoned_at is None
            &&& rate_limit::live_bytes(t.entries, key) matches Some(d)
            &&& epoch_max_wins::decoded_value(d) matches Some(read)
            &&& value.epoch < read.epoch || (value.epoch == read.epoch && value.count
                <= read.count)
            &&& read == value || exists|q: LivePoint| #[trigger]
                s.entries[key].state.points.contains(q) && q.value == read
        }),
{
    epoch_max_wins::law_payload_round_trip(value);
    epoch_max_wins::law_payload_is_no_shard(epoch_max_wins::payload(value));
    let e = s.entries[key].state;
    let o = epoch_max_wins::point_state(value, version);
    let p = LivePoint { value, version };
    assert(o.points[0] == p);
    assert(o.points.contains(p));
    assert(epoch_laws::live_in(e, o, p));
    epoch_laws::law_merge_reads_greatest(e, o, p);
    epoch_laws::law_merge_keeps_what_counts(e, o, p, p);
    let m = epoch_max_wins::merge_states(e, o);
    let read = epoch_max_wins::decoded_value(epoch_max_wins::encoded_shard(m))->0;
    let q = choose|q: LivePoint| #[trigger] epoch_laws::live_in(e, o, q) && q.value == read;
    if o.points.contains(q) {
        assert(q == p);
    }
}

/// A payload that was not written after the tombstone of its key changes nothing where the
/// key is a tombstone.
pub proof fn law_late_write_is_suppressed(
    s: RateLimitView,
    key: Seq<char>,
    value: EpochCount,
    version: RateLimitVersion,
    now: u64,
)
    requires
        s.entries.contains_key(key),
        rate_limit::entry_wf(s.entries[key]),
        !s.entries[key].live,
        !is_newer(version, s.entries[key].state.tombstone->0),
    ensures
        ({
            let op = OperationView {
                key,
                value: Some(epoch_max_wins::payload(value)),
                version,
            };
            rate_limit::rate_limit_apply(s, op, now) == s
        }),
{
    epoch_max_wins::law_payload_round_trip(value);
    epoch_max_wins::law_payload_is_no_shard(epoch_max_wins::payload(value));
    let e = s.entries[key];
    let o = epoch_max_wins::point_state(value, version);
    let m = epoch_max_wins::merge_states(e.state, o);
    if m.points.len() > 0 {
        let q = m.points[0];
        assert(m.points.contains(q));
        epoch_laws::law_merge_keeps_what_counts(e.state, o, q, q);
        assert(epoch_laws::live_in(e.state, o, q));
        assert(o.points.contains(q));
        assert(q == o.points[0]);
    }
    assert(m.points =~= Seq::empty());
    assert(e.state.points =~= Seq::empty());
    assert(m =~= e.state);
    assert(rate_limit::merged_entry(e, o, now) =~= e);
    let op = OperationView { key, value: Some(epoch_max_wins::payload(value)), version };
    assert(rate_limit::rate_limit_apply(s, op, now).entries =~= s.entries);
}

/// A value that is neither sixteen bytes long nor an encoded shard changes nothing.
pub proof fn law_malformed_write_is_ignored(
    s: RateLimitView,
    key: Seq<char>,
    value: Seq<u8>,
    version: RateLimitVersion,
    now: u64,
)
    requires
        value.len() != 16,
        forall|x: ShardView| !(#[trigger] epoch_max_wins::encoded_shard(x)).is_prefix_of(value),
    ensures
        rate_limit::rate_limit_apply(
            s,
            OperationView { key, value: Some(value), version },
            now,
        ) == s,
{
    if epoch_max_wins::decoded_shard(value) is Some {
        let x = choose|x: ShardView| epoch_max_wins::starts_with_shard(value, x);
        assert(epoch_max_wins::encoded_shard(x).is_prefix_of(value));
    }
}

/// Every operation counts as exactly one change or as none.
pub proof fn law_changes_count_once(s: RateLimitView, op: OperationView, now: u64)
    ensures
        ({
            let t = rate_limit::rate_limit_apply(s, op, now);
            &&& t.generation == s.generation || one_change(s.generation, t.generation)
            &&& !s.entries.contains_key(op.key) && t.entries.contains_key(op.key) ==> one_change(
                s.generation,
                t.generation,
            )
            &&& s.entries.contains_key(op.key) && t.entries[op.key].state
                != s.entries[op.key].state ==> one_change(s.generation, t.generation)
            &&& s.entries.contains_key(op.key) && t.entries[op.key].state
                == s.entries[op.key].state ==> t.generation == s.generation
        }),
{
}

/// A read gives the bytes of the shard of a live key, and nothing for a tombstone or a key
/// that is not known.
pub proof fn law_only_live_keys_are_read(entries: Map<Seq<char>, ShardEntryView>, key: Seq<char>)
    ensures
        rate_limit::live_bytes(entries, key) is Some <==> entries.contains_key(key)
            && entries[key].live,
        rate_limit::live_bytes(entries, key) matches Some(d) ==> d
            == epoch_max_wins::encoded_shard(entries[key].state),
        rate_limit::live_keys(entries).contains(key) <==> entries.contains_key(key)
            && entries[key].live,
{
}

// ---------------------------------------------------------------------------
// Local changes
// ---------------------------------------------------------------------------
/// A local change on a last-writer-wins node whose clock is not behind what it knows, and
/// has a timestamp left: the clock goes up by one, the change is what a read shows, and it
/// is logged behind the log under the new timestamp and the id of the node, as long as the
/// log has fewer than 10,000 entries.
pub proof fn law_local_change_is_shown_and_logged(
    before: LwwView,
    clock_before: u64,
    now: u64,
    key: Seq<char>,
    value: Option<Seq<u8>>,
    after: LwwView,
    clock_now: u64,
)
    requires
        lww::local_change(before, clock_before, now, key, value, after, clock_now),
        clock_before < u64::MAX,
        before.state.table.contains_key(key) ==> before.state.table[key].version.timestamp
            <= clock_before,
    ensures
        clock_now == clock_before + 1,
        after.replica_id == before.replica_id,
        value matches Some(v) ==> after.state.kv.live.contains_key(key)
            && after.state.kv.live[key] == v,
        value is None ==> !after.state.kv.live.contains_key(key),
        after.state.table.contains_key(key),
        after.state.table[key].version.timestamp == clock_now,
        after.state.table[key].version.replica_id == before.replica_id,
        before.log.len() < 10_000 ==> after.log == before.log.push(
            OperationView {
                key,
                value,
                version: RateLimitVersion {
                    timestamp: clock_now,
                    replica_id: before.replica_id,
                },
            },
        ),
{
}

/// A local write of a payload on a rate-limit node whose clock is not behind the points and
/// the tombstone of its key, and has a timestamp left: the clock goes up by one, the key is
/// live with the written point among its points, that is one change, and the write is
/// logged behind the log, as long as the log has fewer than 10,000 entries.
pub proof fn law_local_payload_is_held_and_logged(
    before: RateLimitEngineView,
    clock_before: u64,
    now: u64,
    key: Seq<char>,
    value: EpochCount,
    after: RateLimitEngineView,
    clock_now: u64,
)
    requires
        rate_limit::local_change(
            before,
            clock_before,
            now,
            key,
            Some(epoch_max_wins::payload(value)),
            after,
            clock_now,
        ),
        clock_before < u64::MAX,
        before.state.entries.contains_key(key) ==> {
            let e = before.state.entries[key].state;
            &&& e.tombstone matches Some(t) ==> t.timestamp <= clock_before
            &&& forall|q: LivePoint| #[trigger]
                e.points.contains(q) ==> q.version.timestamp <= clock_before
        },
    ensures
        ({
            let version = RateLimitVersion {
                timestamp: clock_now,
                replica_id: before.replica_id,
            };
            &&& clock_now == clock_before + 1
            &&& after.replica_id == before.replica_id
            &&& after.state.entries.contains_key(key)
            &&& after.state.entries[key].live
            &&& after.state.entries[key].state.points.contains(LivePoint { value, version })
            &&& one_change(before.state.generation, after.state.generation)
            &&& before.log.len() < 10_000 ==> after.log == before.log.push(
                OperationView { key, value: Some(epoch_max_wins::payload(value)), version },
            )
        }),
{
    epoch_max_wins::law_payload_round_trip(value);
    epoch_max_wins::law_payload_is_no_shard(epoch_max_wins::payload(value));
    let version = RateLimitVersion { timestamp: clock_now, replica_id: before.replica_id };
    let p = LivePoint { value, version };
    let o = epoch_max_wins::point_state(value, version);
    assert(o.points[0] == p);
    assert(o.points.contains(p));
    if before.state.entries.contains_key(key) {
        let e = before.state.entries[key].state;
        let m = epoch_max_wins::merge_states(e, o);
        assert(epoch_laws::live_in(e, o, p));
        epoch_laws::law_merge_keeps_what_counts(e, o, p, p);
        let k = choose|k: LivePoint| {
            &&& #[trigger] m.points.contains(k)
            &&& p.value.epoch < k.value.epoch || (p.value.epoch == k.value.epoch && p.value.count
                <= k.value.count)
            &&& p.version.timestamp < k.version.timestamp || (p.version.timestamp
                == k.version.timestamp && p.version.replica_id.bits <= k.version.replica_id.bits)
        };
        epoch_laws::law_merge_keeps_what_counts(e, o, k, k);
        assert(epoch_laws::live_in(e, o, k));
        assert(!e.points.contains(k));
        assert(k == p);
        assert(m.points != e.points);
    }
}

/// A local removal on a rate-limit node whose clock is not behind the points and the
/// tombstone of its key, and has a timestamp left: the clock goes up by one, the key is a
/// tombstone of this moment under the new timestamp, that is one change, and the removal is
/// logged behind the log, as long as the log has fewer than 10,000 entries.
pub proof fn law_local_removal_is_held_and_logged(
    before: RateLimitEngineView,
    clock_before: u64,
    now: u64,
    key: Seq<char>,
    after: RateLimitEngineView,
    clock_now: u64,
)
    requires
        rate_limit::local_change(before, clock_before, now, key, None, after, clock_now),
        clock_before < u64::MAX,
        before.state.entries.contains_key(key) ==> {
            let e = before.state.entries[key].state;
            &&& rate_limit::entry_wf(before.state.entries[key])
            &&& e.tombstone matches Some(t) ==> t.timestamp <= clock_before
            &&& forall|q: LivePoint| #[trigger]
                e.points.contains(q) ==> q.version.timestamp <= clock_before
        },
    ensures
        ({
            let version = RateLimitVersion {
                timestamp: clock_now,
                replica_id: before.replica_id,
            };
            &&& clock_now == clock_before + 1
            &&& after.replica_id == before.replica_id
            &&& after.state.entries.contains_key(key)
            &&& !after.state.entries[key].live
            &&& after.state.entries[key].state.tombstone == Some(version)
            &&& after.state.entries[key].tombstoned_at == Some(now)
            &&& one_change(before.state.generation, after.state.generation)
            &&& before.log.len() < 10_000 ==> after.log == before.log.push(
                OperationView { key, value: None, version },
            )
        }),
{
    let version = RateLimitVersion { timestamp: clock_now, replica_id: before.replica_id };
    let o = epoch_max_wins::tombstone_state(version);
    if before.state.entries.contains_key(key) {
        let e = before.state.entries[key].state;
        let m = epoch_max_wins::merge_states(e, o);
        if m.points.len() > 0 {
            let q = m.points[0];
            assert(m.points.contains(q));
            epoch_laws::law_merge_keeps_what_counts(e, o, q, q);
            assert(epoch_laws::live_in(e, o, q));
            assert(e.points.contains(q));
        }
        assert(m.tombstone == Some(version));
    }
}

/// What merging does to an entry: it is live exactly where points are left, and has a time
/// of removal exactly where it is not. That time is this moment where the key was live, or
/// where its tombstone is another one now; else it is what it was.
pub proof fn law_entry_follows_its_state(e: ShardEntryView, incoming: ShardView, now: u64)
    ensures
        ({
            let m = rate_limit::merged_entry(e, incoming, now);
            &&& m.state == epoch_max_wins::merge_states(e.state, incoming)
            &&& m.live <==> m.state.points.len() > 0
            &&& m.live ==> m.tombstoned_at is None
            &&& !m.live && e.live ==> m.tombstoned_at == Some(now)
            &&& !m.live && !e.live && m.state.tombstone != e.state.tombstone ==> m.tombstoned_at
                == Some(now)
            &&& !m.live && !e.live && m.state.tombstone == e.state.tombstone ==> m.tombstoned_at
                == e.tombstoned_at
        }),
{
}

/// Operations are applied one behind the other: those of two lists in a row, as those of
/// the first and then those of the second.
pub proof fn law_lists_are_applied_in_turn(
    s: RateLimitView,
    t: LwwState,
    a: Seq<OperationView>,
    b: Seq<OperationView>,
    now: u64,
)
    ensures
        rate_limit::rate_limit_apply_all(s, a + b, now) == rate_limit::rate_limit_apply_all(
            rate_limit::rate_limit_apply_all(s, a, now),
            b,
            now,
        ),
        lww::lww_apply_all(t, a + b, now) == lww::lww_apply_all(
            lww::lww_apply_all(t, a, now),
            b,
            now,
        ),
        a.len() == 1 ==> rate_limit::rate_limit_apply_all(s, a, now)
            == rate_limit::rate_limit_apply(s, a[0], now),
        a.len() == 1 ==> lww::lww_apply_all(t, a, now) == lww::lww_apply(t, a[0], now),
    decreases b.len(),
{
    if a.len() == 1 {
        assert(a.drop_last() =~= Seq::empty());
        reveal_with_fuel(rate_limit::rate_limit_apply_all, 2);
        reveal_with_fuel(lww::lww_apply_all, 2);
    }
    if b.len() == 0 {
        assert(a + b =~= a);
    } else {
        law_lists_are_applied_in_turn(s, t, a, b.drop_last(), now);
        assert((a + b).drop_last() =~= a + b.drop_last());
        assert((a + b).last() == b.last());
    }
}

/// Collecting tombstones drops as many keys as it counts.
pub proof fn law_collected_keys_are_counted(
    entries: Map<Seq<char>, ShardEntryView>,
    s: LwwState,
    now: u64,
    grace: u64,
)
    requires
        entries.dom().finite(),
        s.table.dom().finite(),
    ensures
        ({
            let due = rate_limit::due_keys(entries, now, grace);
            entries.remove_keys(due).dom().len() + due.len() == entries.dom().len()
        }),
        ({
            let due = metadata::due_keys(s.table, s.kv.live, now, grace);
            s.table.remove_keys(due).dom().len() + due.len() == s.table.dom().len()
        }),
{
    lemma_dropped_keys(entries.dom(), rate_limit::due_keys(entries, now, grace));
    assert(entries.remove_keys(rate_limit::due_keys(entries, now, grace)).dom()
        =~= entries.dom().difference(rate_limit::due_keys(entries, now, grace)));
    let due = metadata::due_keys(s.table, s.kv.live, now, grace);
    lemma_dropped_keys(s.table.dom(), due);
    assert(s.table.remove_keys(due).dom() =~= s.table.dom().difference(due));
}

proof fn lemma_dropped_keys(all: Set<Seq<char>>, gone: Set<Seq<char>>)
    requires
        all.finite(),
        gone.subset_of(all),
    ensures
        all.difference(gone).len() + gone.len() == all.len(),
{
    vstd::set_lib::lemma_set_subset_finite(all, gone);
    let kept = all.difference(gone);
    vstd::set_lib::lemma_set_subset_finite(all, kept);
    vstd::set_lib::lemma_set_disjoint_lens(kept, gone);
    assert(kept + gone =~= all);
}

} // verus!
