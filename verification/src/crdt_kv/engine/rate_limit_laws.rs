//! What the rate-limit engine guarantees.

use vstd::prelude::*;

use super::super::epoch_laws;
use super::super::epoch_max_wins;
use super::super::epoch_max_wins::{EpochCount, LivePoint, RateLimitVersion};
use super::super::frontier;
use super::super::operation::OperationView;
use super::super::operation_log;
use super::rate_limit;
use super::rate_limit::{RateLimitView, ShardEntryView};

verus! {

/// The engine holds of each key what its operations add up to, whatever other keys
/// they are mixed with. Two nodes that have applied the same operations therefore
/// agree wherever the order of the operations on a key does not matter.
pub proof fn law_engine_holds_sum_of_operations(
    generation: u64,
    ops: Seq<OperationView>,
    key: Seq<char>,
    now: u64,
)
    ensures
        ({
            let empty = RateLimitView { entries: Map::empty(), generation };
            let entries = rate_limit::rate_limit_apply_all(empty, ops, now).entries;
            match epoch_max_wins::operations_state(operation_log::on_key(ops, key)) {
                Some(s) => entries.contains_key(key) && entries[key].state == s,
                None => !entries.contains_key(key),
            }
        }),
    decreases ops.len(),
{
    if ops.len() == 0 {
        reveal(Seq::filter);
    } else {
        let rest = ops.drop_last();
        law_engine_holds_sum_of_operations(generation, rest, key, now);
        operation_log::lemma_on_key_push(rest, ops.last(), key);
        assert(ops =~= rest.push(ops.last()));
        let group = operation_log::on_key(rest, key);
        assert(group.push(ops.last()).drop_last() =~= group);
    }
}

/// Applying an operation a second time changes nothing, not even the change
/// counter, if one version stamps one value, and if a first shard for a key comes
/// in normal form.
pub proof fn law_replay_is_no_change(s: RateLimitView, op: OperationView, now: u64, later: u64)
    requires
        rate_limit::entries_wf(s.entries),
        epoch_max_wins::operation_state(op) matches Some(o) ==> if s.entries.contains_key(op.key) {
            epoch_laws::coherent(s.entries[op.key].state.points + o.points)
        } else {
            epoch_laws::normal(o)
        },
    ensures
        rate_limit::rate_limit_apply(rate_limit::rate_limit_apply(s, op, now), op, later)
            == rate_limit::rate_limit_apply(s, op, now),
{
    let t = rate_limit::rate_limit_apply(s, op, now);
    if let Some(o) = epoch_max_wins::operation_state(op) {
        if s.entries.contains_key(op.key) {
            epoch_laws::law_merge_absorbs(s.entries[op.key].state, o);
        } else {
            epoch_laws::law_merge_idempotent(o);
        }
        let e = t.entries[op.key];
        assert(rate_limit::merged_entry(e, o, later) =~= e) by {
            if s.entries.contains_key(op.key) {
                let e0 = s.entries[op.key];
                assert(rate_limit::entry_wf(e0));
            }
        }
        assert(rate_limit::absorb_entry(t.entries, op.key, Some(o), later) =~= t.entries);
    }
}

/// A raw payload and a removal stand for states in normal form.
pub proof fn law_simple_states_are_normal(value: EpochCount, version: RateLimitVersion)
    ensures
        epoch_laws::normal(epoch_max_wins::point_state(value, version)),
        epoch_laws::normal(epoch_max_wins::tombstone_state(version)),
{
    let p = epoch_max_wins::point_state(value, version).points;
    assert(frontier::is_frontier(p, p)) by {
        assert(frontier::kept_at(p, 0));
        assert forall|x: LivePoint| #[trigger]
            p.contains(x) <==> exists|i: int| #[trigger] frontier::kept_at(p, i) && p[i] == x by {
            if p.contains(x) {
                assert(p[0] == x);
            }
        }
    }
    frontier::lemma_frontier_unique(p, p);
    epoch_max_wins::lemma_survivors_all(p);
    frontier::lemma_frontier_empty();
    reveal(Seq::filter);
}

/// No tombstone of the key is ahead of the clock.
pub open spec fn tombstone_behind(e: ShardEntryView, clock: u64) -> bool {
    e.state.tombstone matches Some(t) ==> t.timestamp <= clock
}

/// No point of the key is ahead of the clock.
pub open spec fn points_behind(e: ShardEntryView, clock: u64) -> bool {
    forall|i: int|
        0 <= i < e.state.points.len() ==> (#[trigger] e.state.points[i]).version.timestamp <= clock
}

/// A raw payload that is written after the tombstones of its key is not lost: the
/// key is live, and its value is at least the written one.
pub proof fn law_write_counts(
    s: RateLimitView,
    key: Seq<char>,
    value: EpochCount,
    version: RateLimitVersion,
    clock: u64,
    now: u64,
)
    requires
        clock < version.timestamp,
        s.entries.contains_key(key) ==> tombstone_behind(s.entries[key], clock),
    ensures
        ({
            let op = OperationView {
                key,
                value: Some(epoch_max_wins::payload(value)),
                version,
            };
            let entries = rate_limit::rate_limit_apply(s, op, now).entries;
            &&& rate_limit::is_live(entries, key)
            &&& epoch_max_wins::greatest_value(entries[key].state.points) matches Some(v)
                && !epoch_max_wins::value_lt(v, value)
        }),
{
    epoch_max_wins::law_payload_round_trip(value);
    epoch_max_wins::law_payload_is_no_shard(epoch_max_wins::payload(value));
    let incoming = epoch_max_wins::point_state(value, version);
    let p = LivePoint { value, version };
    if s.entries.contains_key(key) {
        let e = s.entries[key].state;
        let all = e.points + incoming.points;
        assert(all[e.points.len() as int] == p);
        assert(all.contains(p));
        epoch_laws::law_newer_write_counts(e, incoming, p);
        let m = epoch_max_wins::merge_states(e, incoming);
        epoch_max_wins::lemma_greatest_value(m.points);
    } else {
        epoch_max_wins::lemma_greatest_value(incoming.points);
        assert(incoming.points[0].value == value);
    }
}

/// A removal that is newer than every point of its key leaves the key without a
/// value.
pub proof fn law_removal_takes_effect(
    s: RateLimitView,
    key: Seq<char>,
    version: RateLimitVersion,
    clock: u64,
    now: u64,
)
    requires
        clock < version.timestamp,
        s.entries.contains_key(key) ==> points_behind(s.entries[key], clock),
    ensures
        ({
            let op = OperationView { key, value: None, version };
            !rate_limit::is_live(rate_limit::rate_limit_apply(s, op, now).entries, key)
        }),
{
    if s.entries.contains_key(key) {
        let e = s.entries[key].state;
        let t = epoch_max_wins::tombstone_state(version);
        let m = epoch_max_wins::merge_states(e, t);
        epoch_laws::law_tombstone_suppresses(e, t, version);
        epoch_laws::lemma_merged_members(e, t);
        if m.points.len() > 0 {
            assert(m.points.contains(m.points[0]));
            assert((e.points + t.points).contains(m.points[0]));
            let k = choose|k: int|
                0 <= k < (e.points + t.points).len() && (e.points + t.points)[k] == m.points[0];
            assert(e.points[k] == m.points[0]);
        }
    }
}

/// A removal that arrives late and is not newer than the tombstone of its key does
/// not restart the clock of the tombstone.
pub proof fn law_late_removal_keeps_clock(
    e: ShardEntryView,
    version: RateLimitVersion,
    now: u64,
)
    requires
        rate_limit::entry_wf(e),
        !e.live,
        !epoch_max_wins::version_lt(e.state.tombstone->0, version),
    ensures
        rate_limit::merged_entry(e, epoch_max_wins::tombstone_state(version), now) == e,
{
    let t = epoch_max_wins::tombstone_state(version);
    assert(e.state.points + t.points =~= Seq::empty());
    reveal(Seq::filter);
    frontier::lemma_frontier_empty();
    assert(epoch_max_wins::merge_states(e.state, t) =~= e.state) by {
        assert(e.state.points =~= Seq::empty());
    }
}

/// A tombstone outlives its grace: collecting at `now` keeps the entry of a key whose
/// tombstone was observed at `at`, as it is, whenever less than `grace` has passed since
/// then, and drops it once `grace` has passed. A tombstone from the future counts as
/// one of this moment. Live keys stay as they are, and no key is invented.
pub proof fn law_grace_is_respected(
    entries: Map<Seq<char>, ShardEntryView>,
    now: u64,
    grace: u64,
    key: Seq<char>,
    at: u64,
)
    ensures
        ({
            let kept = entries.remove_keys(rate_limit::due_keys(entries, now, grace));
            &&& kept.contains_key(key) ==> entries.contains_key(key) && kept[key] == entries[key]
            &&& entries.contains_key(key) && entries[key].live ==> kept.contains_key(key)
            &&& entries.contains_key(key) && !entries[key].live && entries[key].tombstoned_at
                == Some(at) ==> {
                &&& at <= now && now - at < grace ==> kept.contains_key(key)
                &&& at <= now && now - at >= grace ==> !kept.contains_key(key)
                &&& now < at && grace > 0 ==> kept.contains_key(key)
                &&& now < at && grace == 0 ==> !kept.contains_key(key)
            }
        }),
{
}

/// Operations on one key leave every other key alone.
pub proof fn law_keys_are_independent(
    s: RateLimitView,
    op: OperationView,
    key: Seq<char>,
    now: u64,
)
    requires
        op.key != key,
    ensures
        ({
            let t = rate_limit::rate_limit_apply(s, op, now);
            &&& t.entries.contains_key(key) <==> s.entries.contains_key(key)
            &&& s.entries.contains_key(key) ==> t.entries[key] == s.entries[key]
        }),
{
}

/// The change counter stands still exactly where the states stand still.
pub proof fn law_generation_counts_changes(s: RateLimitView, op: OperationView, now: u64)
    requires
        rate_limit::entries_wf(s.entries),
    ensures
        ({
            let t = rate_limit::rate_limit_apply(s, op, now);
            t.generation == s.generation <==> t.entries == s.entries
        }),
{
    let t = rate_limit::rate_limit_apply(s, op, now);
    if let Some(o) = epoch_max_wins::operation_state(op) {
        if s.entries.contains_key(op.key) {
            let e = s.entries[op.key];
            assert(rate_limit::entry_wf(e));
            if epoch_max_wins::merge_states(e.state, o) == e.state {
                assert(rate_limit::merged_entry(e, o, now) =~= e);
                assert(t.entries =~= s.entries);
            } else {
                assert(t.entries[op.key].state != s.entries[op.key].state);
            }
        } else {
            assert(t.entries.contains_key(op.key));
        }
    }
}

} // verus!
